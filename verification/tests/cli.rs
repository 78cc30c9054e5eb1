use yang_push_key::cli::{
    derivation_to_json, infer_library_format, parse_data_format, parse_module_spec,
    target_type_str, LibraryFormat,
};
use yang_push_key::types::{BranchTemplate, DerivationResult, ExtractionSpec, TargetType};

#[test]
fn target_type_names() {
    assert_eq!(target_type_str(TargetType::Container), "container");
    assert_eq!(target_type_str(TargetType::List), "list");
    assert_eq!(target_type_str(TargetType::Leaf), "leaf");
    assert_eq!(target_type_str(TargetType::LeafList), "leaf-list");
}

#[test]
fn module_spec_with_features() {
    let (name, feats) = parse_module_spec("ietf-ip:ipv4-non-contiguous-netmasks,ipv6-privacy-autoconf");
    assert_eq!(name, "ietf-ip");
    assert_eq!(
        feats,
        vec![
            "ipv4-non-contiguous-netmasks".to_string(),
            "ipv6-privacy-autoconf".to_string()
        ]
    );
}

#[test]
fn module_spec_without_features() {
    let (name, feats) = parse_module_spec("ietf-interfaces");
    assert_eq!(name, "ietf-interfaces");
    assert!(feats.is_empty());
    let (name, feats) = parse_module_spec("m:");
    assert_eq!(name, "m");
    assert_eq!(feats, vec![String::new()]);
}

#[test]
fn data_format_names_ignore_case() {
    assert_eq!(parse_data_format("xml"), Ok(LibraryFormat::Xml));
    assert_eq!(parse_data_format("XML"), Ok(LibraryFormat::Xml));
    assert_eq!(parse_data_format("Json"), Ok(LibraryFormat::Json));
    assert_eq!(
        parse_data_format("YAML"),
        Err("unsupported YANG library format 'yaml' (expected 'xml' or 'json')".to_string())
    );
}

#[test]
fn library_format_from_extension() {
    assert_eq!(infer_library_format(Some("XML"), "lib.XML"), Ok(LibraryFormat::Xml));
    assert_eq!(infer_library_format(Some("json"), "lib.json"), Ok(LibraryFormat::Json));
    assert_eq!(
        infer_library_format(None, "lib"),
        Err("cannot infer YANG library format from 'lib'; use --yang-library-format xml|json".to_string())
    );
    assert_eq!(
        infer_library_format(Some("txt"), "lib.txt"),
        Err("cannot infer YANG library format from 'lib.txt'; use --yang-library-format xml|json".to_string())
    );
}

#[test]
fn phase2_output_numbers_placeholders() {
    let t = "/example-routes:routes/route[prefix='%s'][next-hop='%s']";
    let d = DerivationResult {
        subscription_xpath: "/example-routes:routes/route".to_string(),
        branches: vec![BranchTemplate {
            branch_index: 0,
            branch_xpath: "/example-routes:routes/route".to_string(),
            key_template: t.to_string(),
            extractions: vec![
                ExtractionSpec::for_list_key(
                    "prefix",
                    "example-routes",
                    "route",
                    "/example-routes:routes/route[prefix='%s']",
                ),
                ExtractionSpec::for_list_key("next-hop", "example-routes", "route", t),
            ],
            target_type: TargetType::List,
        }],
    };
    let o = derivation_to_json(&d);
    assert_eq!(o.subscription_xpath, "/example-routes:routes/route");
    assert_eq!(o.branches.len(), 1);
    let b = &o.branches[0];
    assert_eq!(b.branch_index, 0);
    assert_eq!(b.key_template, t);
    assert_eq!(b.target_type, "list");
    assert_eq!(b.extractions.len(), 2);
    assert_eq!(b.extractions[0].placeholder_index, 0);
    assert_eq!(b.extractions[0].extraction_xpath, "/example-routes:routes/route/prefix");
    assert_eq!(b.extractions[0].key_leaf, "prefix");
    assert_eq!(b.extractions[1].placeholder_index, 1);
    assert_eq!(b.extractions[1].key_leaf, "next-hop");
    assert_eq!(b.extractions[1].list_module, "example-routes");
    assert_eq!(b.extractions[1].list_name, "route");
}
