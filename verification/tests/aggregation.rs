use proxclmc::cluster::{classify_cpuinfo, cluster_min_cpu_type, node_level};
use proxclmc::parser::parse_corosync_conf;
use proxclmc::CpuType;

#[test]
fn minimum_of_fully_known_levels() {
    let levels = vec![Some(CpuType::V2), Some(CpuType::V3), Some(CpuType::V1)];
    assert_eq!(cluster_min_cpu_type(&levels), Some(CpuType::V1));
}

#[test]
fn one_unknown_level_makes_cluster_undetermined() {
    let levels = vec![Some(CpuType::V2), None, Some(CpuType::V3)];
    assert_eq!(cluster_min_cpu_type(&levels), None);
}

#[test]
fn empty_cluster_is_undetermined() {
    let levels: Vec<Option<CpuType>> = Vec::new();
    assert_eq!(cluster_min_cpu_type(&levels), None);
}

#[test]
fn single_node_cluster_takes_its_level() {
    let levels = vec![Some(CpuType::V4)];
    assert_eq!(cluster_min_cpu_type(&levels), Some(CpuType::V4));
}

#[test]
fn ties_at_the_minimum_are_fine() {
    let levels = vec![Some(CpuType::V2), Some(CpuType::V2), Some(CpuType::V3)];
    assert_eq!(cluster_min_cpu_type(&levels), Some(CpuType::V2));
}

#[test]
fn node_level_classifies_fetched_text() {
    let fetched = Some("flags: avx512f avx avx2\n".to_string());
    assert_eq!(node_level(&fetched), Some(CpuType::V4));
}

#[test]
fn node_level_of_failed_fetch_stays_unset() {
    assert_eq!(node_level(&None), None);
}

const MEMBERSHIP: &str = "nodelist {\n  node {\n    name: alpha\n    ring0_addr: 10.0.0.1\n  }\n  node {\n    name: beta\n    ring0_addr: 10.0.0.2\n  }\n}\n";

fn scripted_fetch(addr: &str, beta_times_out: bool) -> Option<String> {
    match addr {
        "10.0.0.1" => Some("processor: 0\nflags: avx512f avx avx2 sse4_2 popcnt\n".to_string()),
        "10.0.0.2" => {
            if beta_times_out {
                None
            } else {
                Some("processor: 0\nflags: sse4_2 popcnt\n".to_string())
            }
        }
        _ => None,
    }
}

#[test]
fn end_to_end_two_nodes_classify_and_aggregate() {
    let nodes = parse_corosync_conf(MEMBERSHIP);
    assert_eq!(nodes.len(), 2);
    let mut levels: Vec<Option<CpuType>> = Vec::new();
    for node in &nodes {
        let fetched = scripted_fetch(&node.ring0_addr, false);
        levels.push(node_level(&fetched));
    }
    assert_eq!(levels[0], Some(CpuType::V4));
    assert_eq!(levels[1], Some(CpuType::V2));
    assert_eq!(cluster_min_cpu_type(&levels), Some(CpuType::V2));
}

#[test]
fn end_to_end_one_fetch_timeout_makes_cluster_undetermined() {
    let nodes = parse_corosync_conf(MEMBERSHIP);
    assert_eq!(nodes.len(), 2);
    let mut levels: Vec<Option<CpuType>> = Vec::new();
    for node in &nodes {
        let fetched = scripted_fetch(&node.ring0_addr, true);
        levels.push(node_level(&fetched));
    }
    assert_eq!(levels[0], Some(CpuType::V4));
    assert_eq!(levels[1], None);
    assert_eq!(cluster_min_cpu_type(&levels), None);
}

#[test]
fn classify_cpuinfo_composes_extraction_and_rules() {
    assert_eq!(
        classify_cpuinfo("model name: some cpu\nflags: fpu avx avx2\n"),
        CpuType::V3
    );
    assert_eq!(classify_cpuinfo(""), CpuType::V1);
}
