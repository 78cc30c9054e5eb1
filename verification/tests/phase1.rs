use yang_push_key::phase1::{
    build_tree, normalize_events, normalize_subtree, normalize_tree, read_xml_events, NsModule,
    XmlAttr, XmlElem, XmlEvent, XmlTag, XmlTree,
};

const IF_NS: &str = "urn:ietf:params:xml:ns:yang:ietf-interfaces";
const NET_NS: &str = "urn:example:network";

fn table() -> Vec<NsModule> {
    vec![
        NsModule {
            namespace: IF_NS.to_string(),
            module: "ietf-interfaces".to_string(),
        },
        NsModule {
            namespace: NET_NS.to_string(),
            module: "example-network".to_string(),
        },
    ]
}

fn tag(name: &str, xmlns: Option<&str>) -> XmlTag {
    XmlTag {
        local_name: name.to_string(),
        attributes: match xmlns {
            Some(ns) => vec![Some(XmlAttr {
                key: "xmlns".to_string(),
                value: Some(ns.to_string()),
            })],
            None => vec![],
        },
    }
}

fn elem(name: &str, ns: Option<&str>, text: Option<&str>, parent: Option<usize>) -> XmlElem {
    XmlElem {
        local_name: name.to_string(),
        namespace: ns.map(|s| s.to_string()),
        text: text.map(|s| s.to_string()),
        parent,
        closed: true,
    }
}

#[test]
fn normalize_simple_selection_path() {
    let xml = format!(
        "<interfaces xmlns=\"{}\"><interface><name/></interface></interfaces>",
        IF_NS
    );
    assert_eq!(
        normalize_subtree(&table(), &xml).unwrap(),
        "/ietf-interfaces:interfaces/ietf-interfaces:interface/ietf-interfaces:name"
    );
}

#[test]
fn normalize_content_match_becomes_predicate() {
    let xml = format!(
        "<interfaces xmlns=\"{}\"><interface><name>eth0</name></interface></interfaces>",
        IF_NS
    );
    assert_eq!(
        normalize_subtree(&table(), &xml).unwrap(),
        "/ietf-interfaces:interfaces/ietf-interfaces:interface[ietf-interfaces:name='eth0']"
    );
}

#[test]
fn normalize_content_match_with_selections() {
    let xml = format!(
        "<interfaces xmlns=\"{}\"><interface><name>eth0</name><mtu/><type/></interface></interfaces>",
        IF_NS
    );
    assert_eq!(
        normalize_subtree(&table(), &xml).unwrap(),
        "/ietf-interfaces:interfaces/ietf-interfaces:interface[ietf-interfaces:name='eth0']/ietf-interfaces:mtu | \
         /ietf-interfaces:interfaces/ietf-interfaces:interface[ietf-interfaces:name='eth0']/ietf-interfaces:type"
    );
}

#[test]
fn normalize_strips_filter_wrapper() {
    let xml = format!(
        "<filter xmlns=\"urn:ietf:params:xml:ns:netconf:base:1.0\" type=\"subtree\">\
         <interfaces xmlns=\"{}\"><interface/></interfaces></filter>",
        IF_NS
    );
    assert_eq!(
        normalize_subtree(&table(), &xml).unwrap(),
        "/ietf-interfaces:interfaces/ietf-interfaces:interface"
    );
}

#[test]
fn normalize_multiple_top_level_elements() {
    let xml = format!(
        "<interfaces xmlns=\"{}\"/><network xmlns=\"{}\"><node/></network>",
        IF_NS, NET_NS
    );
    assert_eq!(
        normalize_subtree(&table(), &xml).unwrap(),
        "/ietf-interfaces:interfaces | /example-network:network/example-network:node"
    );
}

#[test]
fn normalize_ignores_layout_white_space() {
    let xml = format!(
        "<interfaces xmlns=\"{}\">\n  <interface>\n    <name>  eth0  </name>\n  </interface>\n</interfaces>\n",
        IF_NS
    );
    assert_eq!(
        normalize_subtree(&table(), &xml).unwrap(),
        "/ietf-interfaces:interfaces/ietf-interfaces:interface[ietf-interfaces:name='eth0']"
    );
}

#[test]
fn normalize_value_with_apostrophe_uses_double_quotes() {
    let xml = format!(
        "<interfaces xmlns=\"{}\"><interface><name>it&apos;s</name></interface></interfaces>",
        IF_NS
    );
    assert_eq!(
        normalize_subtree(&table(), &xml).unwrap(),
        "/ietf-interfaces:interfaces/ietf-interfaces:interface[ietf-interfaces:name=\"it's\"]"
    );
}

#[test]
fn normalize_value_with_both_quotes_uses_concat() {
    let xml = format!(
        "<interfaces xmlns=\"{}\"><interface><name>a&apos;b&quot;c</name></interface></interfaces>",
        IF_NS
    );
    assert_eq!(
        normalize_subtree(&table(), &xml).unwrap(),
        "/ietf-interfaces:interfaces/ietf-interfaces:interface[ietf-interfaces:name=concat('a',\"'\",'b\"c')]"
    );
}

#[test]
fn normalize_deduplicates_repeated_branches() {
    let xml = format!(
        "<interfaces xmlns=\"{}\"><interface><name/><type/><name/></interface></interfaces>",
        IF_NS
    );
    assert_eq!(
        normalize_subtree(&table(), &xml).unwrap(),
        "/ietf-interfaces:interfaces/ietf-interfaces:interface/ietf-interfaces:name | \
         /ietf-interfaces:interfaces/ietf-interfaces:interface/ietf-interfaces:type"
    );
}

#[test]
fn normalize_content_match_at_two_levels() {
    let xml = format!(
        "<network xmlns=\"{}\"><node><node-id>n1</node-id><link><link-id>l1</link-id><source/></link></node></network>",
        NET_NS
    );
    assert_eq!(
        normalize_subtree(&table(), &xml).unwrap(),
        "/example-network:network/example-network:node[example-network:node-id='n1']\
         /example-network:link[example-network:link-id='l1']/example-network:source"
    );
}

#[test]
fn normalize_unknown_namespace_is_an_error() {
    let xml = "<interfaces xmlns=\"urn:unknown\"><interface/></interfaces>";
    assert_eq!(
        normalize_subtree(&table(), xml).unwrap_err(),
        "cannot resolve namespace 'urn:unknown'"
    );
}

#[test]
fn normalize_missing_namespace_is_an_error() {
    let xml = "<interfaces><interface/></interfaces>";
    assert_eq!(
        normalize_subtree(&table(), xml).unwrap_err(),
        "no namespace for element 'interfaces'"
    );
}

#[test]
fn normalize_empty_filter_is_an_error() {
    assert_eq!(
        normalize_subtree(&table(), "<filter/>").unwrap_err(),
        "no data elements in subtree filter"
    );
    assert_eq!(
        normalize_subtree(&table(), "").unwrap_err(),
        "no data elements in subtree filter"
    );
}

#[test]
fn normalize_malformed_xml_is_an_error() {
    let xml = format!("<interfaces xmlns=\"{}\"><interface></interfaces>", IF_NS);
    let err = normalize_subtree(&table(), &xml).unwrap_err();
    assert!(err.starts_with("XML parse error: "), "{}", err);
}

#[test]
fn read_events_end_with_eof() {
    let events = read_xml_events("<a xmlns=\"urn:x\">t</a>");
    assert_eq!(events.len(), 4);
    assert!(matches!(events[0], XmlEvent::Start(ref t) if t.local_name == "a"));
    assert!(matches!(events[1], XmlEvent::Text(ref t) if t == "t"));
    assert!(matches!(events[2], XmlEvent::End));
    assert!(matches!(events[3], XmlEvent::Eof));
}

#[test]
fn build_tree_inherits_namespace_and_resolves_entities() {
    let events = vec![
        XmlEvent::Start(tag("interfaces", Some(IF_NS))),
        XmlEvent::Start(tag("name", None)),
        XmlEvent::Text("  a ".to_string()),
        XmlEvent::GeneralRef("amp".to_string()),
        XmlEvent::Text("b".to_string()),
        XmlEvent::End,
        XmlEvent::Empty(tag("type", Some(NET_NS))),
        XmlEvent::End,
        XmlEvent::Eof,
    ];
    let tree = build_tree(&events).unwrap();
    assert_eq!(tree.elems.len(), 3);
    assert_eq!(tree.elems[0].local_name, "interfaces");
    assert_eq!(tree.elems[0].parent, None);
    assert!(tree.elems[0].closed);
    assert_eq!(tree.elems[1].namespace.as_deref(), Some(IF_NS));
    assert_eq!(tree.elems[1].text.as_deref(), Some("a&b"));
    assert_eq!(tree.elems[1].parent, Some(0));
    assert_eq!(tree.elems[2].namespace.as_deref(), Some(NET_NS));
    assert_eq!(tree.elems[2].parent, Some(0));
}

#[test]
fn build_tree_leaves_unclosed_elements_open() {
    let events = vec![
        XmlEvent::Start(tag("a", Some(IF_NS))),
        XmlEvent::Empty(tag("b", None)),
        XmlEvent::Eof,
    ];
    let tree = build_tree(&events).unwrap();
    assert!(!tree.elems[0].closed);
    assert!(tree.elems[1].closed);
}

#[test]
fn build_tree_reports_syntax_errors() {
    let events = vec![
        XmlEvent::Start(tag("a", Some(IF_NS))),
        XmlEvent::Error("bad".to_string()),
    ];
    assert_eq!(build_tree(&events).unwrap_err(), "XML parse error: bad");
}

#[test]
fn normalize_events_drops_unclosed_elements() {
    let events = vec![
        XmlEvent::Empty(tag("interfaces", Some(IF_NS))),
        XmlEvent::Start(tag("network", Some(NET_NS))),
        XmlEvent::Eof,
    ];
    assert_eq!(
        normalize_events(&table(), &events).unwrap(),
        "/ietf-interfaces:interfaces"
    );
}

#[test]
fn normalize_tree_walks_hand_built_tree() {
    let tree = XmlTree {
        elems: vec![
            elem("interfaces", Some(IF_NS), None, None),
            elem("interface", Some(IF_NS), None, Some(0)),
            elem("name", Some(IF_NS), Some("eth1"), Some(1)),
            elem("enabled", Some(IF_NS), None, Some(1)),
        ],
    };
    assert_eq!(
        normalize_tree(&table(), &tree).unwrap(),
        "/ietf-interfaces:interfaces/ietf-interfaces:interface[ietf-interfaces:name='eth1']/ietf-interfaces:enabled"
    );
}

#[test]
fn normalize_tree_content_child_without_namespace_is_an_error() {
    let tree = XmlTree {
        elems: vec![
            elem("interface", Some(IF_NS), None, None),
            elem("name", None, Some("eth1"), Some(0)),
        ],
    };
    assert_eq!(
        normalize_tree(&table(), &tree).unwrap_err(),
        "no namespace for 'name'"
    );
}

#[test]
fn normalize_whitespace_only_text_is_not_content_match() {
    let xml = format!(
        "<interfaces xmlns=\"{}\"><interface><name>   \n\t </name></interface></interfaces>",
        IF_NS
    );
    assert_eq!(
        normalize_subtree(&table(), &xml).unwrap(),
        "/ietf-interfaces:interfaces/ietf-interfaces:interface/ietf-interfaces:name"
    );
}

#[test]
fn normalize_content_match_value_with_slash() {
    let xml = format!(
        "<interfaces xmlns=\"{}\"><interface><name>ge-0/0/0.100</name><mtu/></interface></interfaces>",
        IF_NS
    );
    assert_eq!(
        normalize_subtree(&table(), &xml).unwrap(),
        "/ietf-interfaces:interfaces/ietf-interfaces:interface[ietf-interfaces:name='ge-0/0/0.100']/ietf-interfaces:mtu"
    );
}

#[test]
fn normalize_union_splits_back_into_its_branches() {
    let xml = format!(
        "<interfaces xmlns=\"{}\"><interface><name>a|b</name><mtu/><type/></interface></interfaces>",
        IF_NS
    );
    let x = normalize_subtree(&table(), &xml).unwrap();
    let branches = yang_push_key::xpath::split_union(&x);
    assert_eq!(
        branches,
        vec![
            "/ietf-interfaces:interfaces/ietf-interfaces:interface[ietf-interfaces:name='a|b']/ietf-interfaces:mtu".to_string(),
            "/ietf-interfaces:interfaces/ietf-interfaces:interface[ietf-interfaces:name='a|b']/ietf-interfaces:type".to_string(),
        ]
    );
}
