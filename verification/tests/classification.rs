use proxclmc::features::extract_flags;
use proxclmc::CpuType;

fn flags_of(tokens: &[&str]) -> Vec<String> {
    tokens.iter().map(|t| t.to_string()).collect()
}

#[test]
fn extracts_tokens_after_colon_of_flags_line() {
    let cpuinfo = "processor\t: 0\nvendor_id\t: GenuineIntel\nflags\t\t: fpu vme avx avx2\nbugs\t\t: spectre\n";
    let flags = extract_flags(cpuinfo);
    assert_eq!(flags, flags_of(&["fpu", "vme", "avx", "avx2"]));
}

#[test]
fn no_flags_line_yields_empty_set() {
    let cpuinfo = "processor\t: 0\nvendor_id\t: GenuineIntel\n";
    let flags = extract_flags(cpuinfo);
    assert!(flags.is_empty());
}

#[test]
fn flags_line_without_colon_yields_empty_set() {
    let cpuinfo = "flags fpu vme\n";
    let flags = extract_flags(cpuinfo);
    assert!(flags.is_empty());
}

#[test]
fn first_flags_line_wins() {
    let cpuinfo = "flags: a b\nflags: c d\n";
    let flags = extract_flags(cpuinfo);
    assert_eq!(flags, flags_of(&["a", "b"]));
}

#[test]
fn indented_flags_line_is_found() {
    let cpuinfo = "  flags : sse4_2 popcnt\n";
    let flags = extract_flags(cpuinfo);
    assert_eq!(flags, flags_of(&["sse4_2", "popcnt"]));
}

#[test]
fn empty_feature_set_is_baseline() {
    let flags: Vec<String> = Vec::new();
    assert_eq!(CpuType::from_flags(&flags), CpuType::V1);
}

#[test]
fn highest_rule_wins_over_lower_tiers() {
    let flags = flags_of(&["avx512f", "avx", "avx2", "sse4_2", "popcnt"]);
    assert_eq!(CpuType::from_flags(&flags), CpuType::V4);
}

#[test]
fn avx_pair_classifies_as_v3() {
    let flags = flags_of(&["sse4_2", "popcnt", "avx", "avx2"]);
    assert_eq!(CpuType::from_flags(&flags), CpuType::V3);
}

#[test]
fn sse_pair_classifies_as_v2() {
    let flags = flags_of(&["fpu", "sse4_2", "popcnt"]);
    assert_eq!(CpuType::from_flags(&flags), CpuType::V2);
}

#[test]
fn avx_without_avx2_stays_below_v3() {
    let flags = flags_of(&["avx", "sse4_2", "popcnt"]);
    assert_eq!(CpuType::from_flags(&flags), CpuType::V2);
}

#[test]
fn sse4_2_without_popcnt_is_baseline() {
    let flags = flags_of(&["sse4_2"]);
    assert_eq!(CpuType::from_flags(&flags), CpuType::V1);
}

#[test]
fn level_names_round_trip() {
    for t in [CpuType::V1, CpuType::V2, CpuType::V3, CpuType::V4] {
        assert_eq!(CpuType::from_str(t.as_str()), Some(t));
    }
}

#[test]
fn level_names_are_canonical() {
    assert_eq!(CpuType::V1.as_str(), "x86-64-v1");
    assert_eq!(CpuType::V2.as_str(), "x86-64-v2");
    assert_eq!(CpuType::V3.as_str(), "x86-64-v3");
    assert_eq!(CpuType::V4.as_str(), "x86-64-v4");
}

#[test]
fn unknown_or_miscased_names_do_not_parse() {
    assert_eq!(CpuType::from_str("x86-64-v5"), None);
    assert_eq!(CpuType::from_str("X86-64-V1"), None);
    assert_eq!(CpuType::from_str(""), None);
    assert_eq!(CpuType::from_str("x86-64-v1 "), None);
}

#[test]
fn level_order_matches_capability_tiers() {
    assert!(CpuType::V1.le(CpuType::V2));
    assert!(CpuType::V2.le(CpuType::V3));
    assert!(CpuType::V3.le(CpuType::V4));
    assert!(!CpuType::V4.le(CpuType::V3));
    assert!(CpuType::V2.le(CpuType::V2));
}
