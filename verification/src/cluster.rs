//! Cluster aggregator and the per-node collection decisions.
//!
//! Each parsed node is an immutable identity; its classification is a
//! separately-owned optional level, set at most once from the outcome of the
//! node's remote fetch. The aggregator reduces those per-node levels to the
//! cluster-wide minimum, and refuses to compute a partial minimum: one node
//! of unknown capability makes the whole cluster undetermined, since that
//! node could still become a migration target.

use vstd::prelude::*;

use crate::cpu::{classify_spec, CpuType};
use crate::features::{extract_flags, extract_flags_spec};

verus! {

/// The level a node ends up with for one run: the classification of the
/// fetched CPU description, or unset when the fetch failed.
pub open spec fn node_level_spec(fetched: Option<Seq<char>>) -> Option<CpuType> {
    match fetched {
        Some(text) => Some(classify_spec(extract_flags_spec(text))),
        None => None,
    }
}

/// Classifies one node's raw CPU description: the extracted feature set, fed
/// to the rule table.
pub fn classify_cpuinfo(cpuinfo: &str) -> (t: CpuType)
    ensures
        t == classify_spec(extract_flags_spec(cpuinfo@)),
{
    let flags = extract_flags(cpuinfo);
    CpuType::from_flags(flags.as_slice())
}

/// Decides one node's classification from the outcome of its remote fetch:
/// a fetched description is classified, a failed fetch leaves the level
/// unset. The per-node failure is soft; it never stops the run.
pub fn node_level(fetched: &Option<String>) -> (lvl: Option<CpuType>)
    ensures
        lvl == node_level_spec(fetched.deep_view()),
{
    match fetched {
        Some(text) => Some(classify_cpuinfo(text.as_str())),
        None => None,
    }
}

/// Whether some entry of `levels` is set to exactly `m`.
pub open spec fn has_level(levels: Seq<Option<CpuType>>, m: CpuType) -> bool {
    exists|k: int| 0 <= k < levels.len() && levels[k] == Some(m)
}

/// Returns the minimum level among `levels` iff there is at least one node
/// and every node's level is set; any unset level, and likewise an empty
/// cluster, yields an undetermined result rather than a partial minimum.
pub fn cluster_min_cpu_type(levels: &[Option<CpuType>]) -> (r: Option<CpuType>)
    ensures
        (r is Some) <==> (levels@.len() > 0 && forall|k: int|
            0 <= k < levels@.len() ==> levels@[k] is Some),
        r matches Some(m) ==> has_level(levels@, m),
        r matches Some(m) ==> forall|k: int|
            0 <= k < levels@.len() ==> m.rank() <= levels@[k]->0.rank(),
{
    let n = levels.len();
    if n == 0 {
        return None;
    }
    let mut best: CpuType = match levels[0] {
        Some(l) => l,
        None => {
            return None;
        },
    };
    assert(levels@[0] == Some(best));
    let mut k: usize = 1;
    while k < n
        invariant
            1 <= k <= n,
            n == levels@.len(),
            forall|j: int| 0 <= j < k ==> levels@[j] is Some,
            exists|j: int| 0 <= j < k && levels@[j] == Some(best),
            forall|j: int| 0 <= j < k ==> best.rank() <= levels@[j]->0.rank(),
        decreases n - k,
    {
        match levels[k] {
            Some(l) => {
                if l.rank_u8() < best.rank_u8() {
                    best = l;
                    assert(levels@[k as int] == Some(best));
                }
            },
            None => {
                assert(levels@[k as int] is None);
                return None;
            },
        }
        k = k + 1;
    }
    assert(has_level(levels@, best));
    Some(best)
}

} // verus!
