use proxclmc::parser::parse_corosync_conf;

#[test]
fn parses_two_well_formed_blocks_in_order() {
    let text = "totem {\n  version: 2\n}\nnodelist {\n  node {\n    name: alpha\n    ring0_addr: 10.0.0.1\n  }\n  node {\n    name: beta\n    ring0_addr: 10.0.0.2\n  }\n}\n";
    let nodes = parse_corosync_conf(text);
    assert_eq!(nodes.len(), 2);
    assert_eq!(nodes[0].name, "alpha");
    assert_eq!(nodes[0].ring0_addr, "10.0.0.1");
    assert_eq!(nodes[1].name, "beta");
    assert_eq!(nodes[1].ring0_addr, "10.0.0.2");
}

#[test]
fn block_missing_name_is_dropped() {
    let text = "nodelist {\n  node {\n    ring0_addr: 10.0.0.1\n  }\n  node {\n    name: beta\n    ring0_addr: 10.0.0.2\n  }\n}\n";
    let nodes = parse_corosync_conf(text);
    assert_eq!(nodes.len(), 1);
    assert_eq!(nodes[0].name, "beta");
    assert_eq!(nodes[0].ring0_addr, "10.0.0.2");
}

#[test]
fn block_missing_address_is_dropped() {
    let text = "nodelist {\n  node {\n    name: alpha\n  }\n}\n";
    let nodes = parse_corosync_conf(text);
    assert_eq!(nodes.len(), 0);
}

#[test]
fn empty_nodelist_yields_empty_list() {
    let text = "nodelist {\n}\n";
    let nodes = parse_corosync_conf(text);
    assert_eq!(nodes.len(), 0);
}

#[test]
fn empty_text_yields_empty_list() {
    let nodes = parse_corosync_conf("");
    assert_eq!(nodes.len(), 0);
}

#[test]
fn node_block_outside_nodelist_is_ignored() {
    let text = "node {\n  name: stray\n  ring0_addr: 10.0.0.9\n}\n";
    let nodes = parse_corosync_conf(text);
    assert_eq!(nodes.len(), 0);
}

#[test]
fn other_keys_inside_node_block_are_ignored() {
    let text = "nodelist {\n  node {\n    name: alpha\n    nodeid: 1\n    quorum_votes: 1\n    ring0_addr: 10.0.0.1\n  }\n}\n";
    let nodes = parse_corosync_conf(text);
    assert_eq!(nodes.len(), 1);
    assert_eq!(nodes[0].name, "alpha");
    assert_eq!(nodes[0].ring0_addr, "10.0.0.1");
}

#[test]
fn values_are_trimmed() {
    let text = "nodelist {\n  node {\n    name:   alpha  \n    ring0_addr:\t10.0.0.1\r\n  }\n}\n";
    let nodes = parse_corosync_conf(text);
    assert_eq!(nodes.len(), 1);
    assert_eq!(nodes[0].name, "alpha");
    assert_eq!(nodes[0].ring0_addr, "10.0.0.1");
}

#[test]
fn unbalanced_braces_do_not_fail() {
    let text = "nodelist {\n  node {\n    name: alpha\n    ring0_addr: 10.0.0.1\n";
    let nodes = parse_corosync_conf(text);
    assert_eq!(nodes.len(), 0);
}

#[test]
fn later_key_occurrence_overwrites_earlier() {
    let text = "nodelist {\n  node {\n    name: first\n    name: second\n    ring0_addr: 10.0.0.1\n  }\n}\n";
    let nodes = parse_corosync_conf(text);
    assert_eq!(nodes.len(), 1);
    assert_eq!(nodes[0].name, "second");
}
