use yang_push_key::xpath::{
    escape_xpath_value, parse_predicates, parse_xpath_steps, split_union, strip_predicates,
};

#[test]
fn split_simple_union() {
    let branches = split_union("/a:x/y | /b:p/q");
    assert_eq!(branches, vec!["/a:x/y", "/b:p/q"]);
}

#[test]
fn split_preserves_predicate_pipe() {
    let branches = split_union("/a:x[k='a|b'] | /b:p");
    assert_eq!(branches.len(), 2);
    assert!(branches[0].contains("a|b"));
}

#[test]
fn split_preserves_quoted_pipe() {
    let branches = split_union(r#"/a:x[k="a|b"]"#);
    assert_eq!(branches.len(), 1);
}

#[test]
fn parse_single_predicate() {
    let p = parse_predicates("[name='eth0']");
    assert_eq!(p.kvs.len(), 1);
    assert_eq!(p.kvs[0].key, "name");
    assert_eq!(p.kvs[0].value, "eth0");
    assert!(!p.has_positional);
}

#[test]
fn parse_positional() {
    let p = parse_predicates("[1]");
    assert_eq!(p.kvs.len(), 0);
    assert!(p.has_positional);
}

#[test]
fn parse_strips_prefix() {
    let p = parse_predicates("[mod:name='eth0']");
    assert_eq!(p.kvs[0].key, "name");
}

#[test]
fn escape_simple_value() {
    assert_eq!(escape_xpath_value("eth0"), "'eth0'");
}

#[test]
fn escape_value_with_single_quote() {
    assert_eq!(escape_xpath_value("O'Brien"), "\"O'Brien\"");
}

#[test]
fn strip_predicates_from_path() {
    assert_eq!(strip_predicates("/a:x/y[k='v']/z[j='w']"), "/a:x/y/z");
}

// ---------------------------------------------------------------------
//  Further cases
// ---------------------------------------------------------------------

#[test]
fn split_pipe_in_parentheses_is_not_a_separator() {
    let branches = split_union("/a:x[f(1|2)] |/b:p");
    assert_eq!(branches, vec!["/a:x[f(1|2)]", "/b:p"]);
}

#[test]
fn split_drops_empty_branches_and_trims() {
    let branches = split_union("  | /a:x \t|   ");
    assert_eq!(branches, vec!["/a:x"]);
    assert!(split_union("").is_empty());
}

#[test]
fn escape_value_with_both_quotes_uses_concat() {
    assert_eq!(
        escape_xpath_value("a'b\"c"),
        "concat('a',\"'\",'b\"c')"
    );
    assert_eq!(escape_xpath_value("'x\""), "concat(\"'\",'x\"')");
}

#[test]
fn parse_double_quoted_and_bare_values() {
    let p = parse_predicates("[ name = \"eth0\" ][id= 7 ][.='v']");
    assert_eq!(p.kvs.len(), 3);
    assert_eq!(p.kvs[0].key, "name");
    assert_eq!(p.kvs[0].value, "eth0");
    assert_eq!(p.kvs[1].key, "id");
    assert_eq!(p.kvs[1].value, "7");
    assert_eq!(p.kvs[2].key, ".");
    assert_eq!(p.kvs[2].value, "v");
}

#[test]
fn parse_non_kv_predicate_is_skipped() {
    let p = parse_predicates("[foo][k='v'][2]");
    assert_eq!(p.kvs.len(), 1);
    assert_eq!(p.kvs[0].key, "k");
    assert!(p.has_positional);
}

#[test]
fn xpath_steps_of_nested_path() {
    let steps = parse_xpath_steps("/m:a/b[k='x/y'][2]/n:c");
    assert_eq!(steps.len(), 3);
    assert_eq!(steps[0].local_name, "a");
    assert_eq!(steps[1].local_name, "b");
    assert_eq!(steps[1].kvs.len(), 1);
    assert_eq!(steps[1].kvs[0].value, "x/y");
    assert!(steps[1].has_positional);
    assert_eq!(steps[2].local_name, "c");
    assert!(!steps[2].has_positional);
}

#[test]
fn strip_predicates_with_unbalanced_bracket() {
    assert_eq!(strip_predicates("/a]b[c]d"), "/ac");
    assert_eq!(strip_predicates("/a[b[c]]d"), "/ad");
}

#[test]
fn escaped_predicate_reads_back() {
    for v in ["eth0", "O'Brien", "ge-0/0/0.100", "a b"] {
        let p = parse_predicates(&format!("[m:name={}]", escape_xpath_value(v)));
        assert_eq!(p.kvs.len(), 1);
        assert_eq!(p.kvs[0].key, "name");
        assert_eq!(p.kvs[0].value, v);
        assert!(!p.has_positional);
    }
}
