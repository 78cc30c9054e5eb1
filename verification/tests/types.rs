use yang_push_key::types::{strip_last_predicates, ExtractionSpec, MessageKey};

#[test]
fn extraction_for_list_key_builds_absolute_xpath() {
    let ext = ExtractionSpec::for_list_key(
        "name",
        "ietf-interfaces",
        "interface",
        "/ietf-interfaces:interfaces/interface[name='%s']",
    );
    assert_eq!(
        ext.extraction_xpath,
        "/ietf-interfaces:interfaces/interface/name"
    );
    assert_eq!(ext.key_leaf_name, "name");
    assert_eq!(ext.list_module, "ietf-interfaces");
    assert_eq!(ext.list_name, "interface");
}

#[test]
fn extraction_for_list_key_with_pinned_ancestor() {
    let ext = ExtractionSpec::for_list_key(
        "ip",
        "ietf-ip",
        "address",
        "/ietf-interfaces:interfaces/interface[name='eth0']/ietf-ip:ipv4/address[ip='%s']",
    );
    assert_eq!(
        ext.extraction_xpath,
        "/ietf-interfaces:interfaces/interface[name='eth0']/ietf-ip:ipv4/address/ip"
    );
    assert_eq!(ext.key_leaf_name, "ip");
    assert_eq!(ext.list_module, "ietf-ip");
    assert_eq!(ext.list_name, "address");
}

#[test]
fn extraction_for_leaf_list_value() {
    let ext = ExtractionSpec::for_leaf_list_value("ietf-system", "search");
    assert_eq!(ext.extraction_xpath, ".");
    assert_eq!(ext.key_leaf_name, ".");
}

#[test]
fn from_xpath_parses_absolute_path() {
    let expected = ExtractionSpec {
        extraction_xpath: "/ietf-interfaces:interfaces/interface/name".to_string(),
        key_leaf_name: "name".to_string(),
        list_module: "ietf-interfaces".to_string(),
        list_name: "interface".to_string(),
    };

    let sepc = ExtractionSpec::from_xpath("/ietf-interfaces:interfaces/interface/name").unwrap();
    assert_eq!(sepc, expected);
}

#[test]
fn from_xpath_parses_nested_with_pinned_predicate() {
    let expected = ExtractionSpec {
        extraction_xpath:
            "/ietf-interfaces:interfaces/interface[name='eth0']/ietf-ip:ipv4/address/ip"
                .to_string(),
        key_leaf_name: "ip".to_string(),
        list_module: "ietf-ip".to_string(),
        list_name: "address".to_string(),
    };

    let spec = ExtractionSpec::from_xpath(
        "/ietf-interfaces:interfaces/interface[name='eth0']/ietf-ip:ipv4/address/ip",
    )
    .unwrap();

    assert_eq!(spec, expected);
}

#[test]
fn from_xpath_parses_dot() {
    let expected = ExtractionSpec {
        extraction_xpath: ".".to_string(),
        key_leaf_name: ".".to_string(),
        list_module: "".to_string(),
        list_name: "".to_string(),
    };
    let spec = ExtractionSpec::from_xpath(".").unwrap();
    assert_eq!(spec, expected);
}

#[test]
fn from_xpath_rejects_invalid() {
    assert!(ExtractionSpec::from_xpath("invalid").is_err());
}

#[test]
fn from_xpath_roundtrip_matches_for_list_key() {
    let built = ExtractionSpec::for_list_key(
        "id",
        "example-network",
        "interface",
        "/example-network:network-instances/network-instance[name='%s']/interface[id='%s']",
    );
    let parsed = ExtractionSpec::from_xpath(&built.extraction_xpath).unwrap();
    assert_eq!(built, parsed);
}

#[test]
fn strip_last_predicates_basic() {
    assert_eq!(strip_last_predicates("/a:x/y[name='%s']"), "/a:x/y");
}

#[test]
fn strip_last_predicates_composite() {
    assert_eq!(
        strip_last_predicates("/a:x/route[dst='%s'][nh='%s']"),
        "/a:x/route"
    );
}

#[test]
fn strip_last_predicates_no_predicates() {
    assert_eq!(strip_last_predicates("/a:x/y"), "/a:x/y");
}

#[test]
fn message_key_single_xpath() {
    let key = MessageKey {
        node_name: "router-nyc-01".into(),
        subscription_id: "1042".into(),
        xpaths: vec!["/ietf-interfaces:interfaces/interface[name='eth0']".into()],
    };
    assert_eq!(
        key.to_line_delimited(),
        "router-nyc-01\n1042\n/ietf-interfaces:interfaces/interface[name='eth0']"
    );
}

#[test]
fn message_key_multiple_xpaths_joined_by_pipe() {
    let key = MessageKey {
        node_name: "router-nyc-01".into(),
        subscription_id: "1042".into(),
        xpaths: vec![
            "/ietf-interfaces:interfaces/interface[name='eth0']".into(),
            "/ietf-interfaces:interfaces/interface[name='eth1']".into(),
        ],
    };
    let expected = "router-nyc-01\n1042\n\
        /ietf-interfaces:interfaces/interface[name='eth0'] | \
        /ietf-interfaces:interfaces/interface[name='eth1']";
    assert_eq!(key.to_line_delimited(), expected);
}

// ---------------------------------------------------------------------
//  Further cases
// ---------------------------------------------------------------------

#[test]
fn from_xpath_error_message_names_the_path() {
    let err = ExtractionSpec::from_xpath("a/b").unwrap_err();
    assert_eq!(err, "extraction xpath must be absolute: 'a/b'");
}

#[test]
fn from_xpath_takes_module_from_earlier_segment() {
    let spec = ExtractionSpec::from_xpath("/m:top/mid/list[k='v']/key").unwrap();
    assert_eq!(spec.key_leaf_name, "key");
    assert_eq!(spec.list_name, "list");
    assert_eq!(spec.list_module, "m");
}

#[test]
fn from_xpath_without_any_module() {
    let spec = ExtractionSpec::from_xpath("/top/key").unwrap();
    assert_eq!(spec.list_name, "top");
    assert_eq!(spec.list_module, "");
}

#[test]
fn strip_last_predicates_without_slash_is_identity() {
    assert_eq!(strip_last_predicates("abc[d]"), "abc[d]");
}

#[test]
fn message_key_without_xpaths_keeps_empty_third_line() {
    let key = MessageKey {
        node_name: "n".into(),
        subscription_id: "1".into(),
        xpaths: vec![],
    };
    assert_eq!(key.to_line_delimited(), "n\n1\n");
}

#[test]
fn message_key_has_three_lines() {
    let key = MessageKey {
        node_name: "router-nyc-01".to_string(),
        subscription_id: "1042".to_string(),
        xpaths: vec![
            "/ietf-interfaces:interfaces/interface[name='eth0']".to_string(),
            "/ietf-interfaces:interfaces/interface[name='eth1']".to_string(),
        ],
    };
    let s = key.to_line_delimited();
    let lines: Vec<&str> = s.split('\n').collect();
    assert_eq!(
        lines,
        vec![
            "router-nyc-01",
            "1042",
            "/ietf-interfaces:interfaces/interface[name='eth0'] | /ietf-interfaces:interfaces/interface[name='eth1']",
        ]
    );
    assert!(!s.ends_with('\n'));
}

#[test]
fn from_xpath_reads_back_extractions_of_both_kinds() {
    let inherited = ExtractionSpec::for_list_key(
        "ip",
        "ietf-ip",
        "address",
        "/ietf-interfaces:interfaces/interface[name='eth0']/ietf-ip:ipv4/address[ip='%s']",
    );
    assert_eq!(ExtractionSpec::from_xpath(&inherited.extraction_xpath).unwrap(), inherited);
    let prefixed = ExtractionSpec::for_list_key(
        "ip",
        "ietf-ip",
        "address",
        "/ietf-interfaces:interfaces/interface[name='eth0']/ietf-ip:address[ip='%s']",
    );
    assert_eq!(
        prefixed.extraction_xpath,
        "/ietf-interfaces:interfaces/interface[name='eth0']/ietf-ip:address/ip"
    );
    assert_eq!(ExtractionSpec::from_xpath(&prefixed.extraction_xpath).unwrap(), prefixed);
}

#[test]
fn leaf_list_extraction_leaves_list_fields_empty() {
    let ext = ExtractionSpec::for_leaf_list_value("ietf-system", "search");
    assert_eq!(ext.list_module, "");
    assert_eq!(ext.list_name, "");
}

#[test]
fn from_xpath_ignores_slash_inside_predicate() {
    let s = ExtractionSpec::from_xpath("/m:a/l[k='x/y']/key").unwrap();
    assert_eq!(s.key_leaf_name, "key");
    assert_eq!(s.list_name, "l");
    assert_eq!(s.list_module, "m");
}

#[test]
fn for_list_key_with_slash_in_pinned_value() {
    let ext = ExtractionSpec::for_list_key(
        "ip",
        "ietf-ip",
        "address",
        "/ietf-interfaces:interfaces/interface[name='eth0/1']/ietf-ip:ipv4/address[ip='%s']",
    );
    assert_eq!(
        ext.extraction_xpath,
        "/ietf-interfaces:interfaces/interface[name='eth0/1']/ietf-ip:ipv4/address/ip"
    );
    let back = ExtractionSpec::from_xpath(&ext.extraction_xpath).unwrap();
    assert_eq!(back, ext);
}

#[test]
fn strip_last_predicates_with_slash_in_value() {
    assert_eq!(strip_last_predicates("/m:a/l[k='x/y']"), "/m:a/l");
}
