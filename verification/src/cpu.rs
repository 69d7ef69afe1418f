//! The four x86-64 microarchitecture levels and the classifier that maps a
//! CPU feature-flag set to the highest level it satisfies.

use vstd::prelude::*;

use crate::text::str_eq;

verus! {

/// An x86-64 microarchitecture level, ordered `V1 < V2 < V3 < V4` to match
/// the capability-superset relation of the published psABI levels.
#[derive(Clone, Copy, Debug, PartialEq, Eq, Structural)]
pub enum CpuType {
    V1,
    V2,
    V3,
    V4,
}

impl CpuType {
    /// The position of this level in the total order `V1 < V2 < V3 < V4`.
    pub open spec fn rank(self) -> int {
        match self {
            CpuType::V1 => 1,
            CpuType::V2 => 2,
            CpuType::V3 => 3,
            CpuType::V4 => 4,
        }
    }

    /// Executable counterpart of [`CpuType::rank`].
    pub fn rank_u8(self) -> (r: u8)
        ensures
            r as int == self.rank(),
    {
        match self {
            CpuType::V1 => 1,
            CpuType::V2 => 2,
            CpuType::V3 => 3,
            CpuType::V4 => 4,
        }
    }

    /// Whether this level is at most `other` in the capability order.
    pub fn le(self, other: CpuType) -> (r: bool)
        ensures
            r == (self.rank() <= other.rank()),
    {
        self.rank_u8() <= other.rank_u8()
    }

    /// The canonical name of this level.
    pub open spec fn level_name(self) -> Seq<char> {
        match self {
            CpuType::V1 => "x86-64-v1"@,
            CpuType::V2 => "x86-64-v2"@,
            CpuType::V3 => "x86-64-v3"@,
            CpuType::V4 => "x86-64-v4"@,
        }
    }

    /// The level a canonical name denotes: the exact inverse of
    /// [`CpuType::level_name`] on the four fixed literals, and nothing on any
    /// other string.
    pub open spec fn from_str_spec(s: Seq<char>) -> Option<CpuType> {
        if s == "x86-64-v1"@ {
            Some(CpuType::V1)
        } else if s == "x86-64-v2"@ {
            Some(CpuType::V2)
        } else if s == "x86-64-v3"@ {
            Some(CpuType::V3)
        } else if s == "x86-64-v4"@ {
            Some(CpuType::V4)
        } else {
            None
        }
    }

    /// The canonical string name of this level.
    pub fn as_str(&self) -> (r: &'static str)
        ensures
            r@ == self.level_name(),
    {
        match self {
            CpuType::V1 => "x86-64-v1",
            CpuType::V2 => "x86-64-v2",
            CpuType::V3 => "x86-64-v3",
            CpuType::V4 => "x86-64-v4",
        }
    }

    /// Parses a canonical level name back into the level: four fixed literal
    /// mappings, case-sensitive, no fuzzy matching.
    pub fn from_str(s: &str) -> (r: Option<CpuType>)
        ensures
            r == Self::from_str_spec(s@),
    {
        if str_eq(s, "x86-64-v1") {
            Some(CpuType::V1)
        } else if str_eq(s, "x86-64-v2") {
            Some(CpuType::V2)
        } else if str_eq(s, "x86-64-v3") {
            Some(CpuType::V3)
        } else if str_eq(s, "x86-64-v4") {
            Some(CpuType::V4)
        } else {
            None
        }
    }

    /// Classifies a feature-flag set into the highest level whose rule it
    /// satisfies: the rules are checked from the highest tier down and the
    /// first match wins.
    pub fn from_flags(flags: &[String]) -> (t: CpuType)
        ensures
            t == classify_spec(flags.deep_view()),
    {
        if contains_flag(flags, "avx512f") {
            CpuType::V4
        } else if contains_flag(flags, "avx") && contains_flag(flags, "avx2") {
            CpuType::V3
        } else if contains_flag(flags, "sse4_2") && contains_flag(flags, "popcnt") {
            CpuType::V2
        } else {
            CpuType::V1
        }
    }
}

/// The canonical name of each level parses back to that level.
pub proof fn lemma_level_name_round_trip(t: CpuType)
    ensures
        CpuType::from_str_spec(t.level_name()) == Some(t),
{
    reveal_strlit("x86-64-v1");
    reveal_strlit("x86-64-v2");
    reveal_strlit("x86-64-v3");
    reveal_strlit("x86-64-v4");
    assert("x86-64-v2"@[8] != "x86-64-v1"@[8]);
    assert("x86-64-v3"@[8] != "x86-64-v1"@[8]);
    assert("x86-64-v3"@[8] != "x86-64-v2"@[8]);
    assert("x86-64-v4"@[8] != "x86-64-v1"@[8]);
    assert("x86-64-v4"@[8] != "x86-64-v2"@[8]);
    assert("x86-64-v4"@[8] != "x86-64-v3"@[8]);
}

/// Whether the flag `f` occurs in the feature set `flags`.
pub open spec fn has_flag(flags: Seq<Seq<char>>, f: Seq<char>) -> bool {
    exists|k: int| 0 <= k < flags.len() && flags[k] == f
}

/// The level a feature-flag set classifies as. The rule table, in strict
/// priority order, first match wins: `avx512f` gives V4; `avx` with `avx2`
/// gives V3; `sse4_2` with `popcnt` gives V2; everything else is the V1
/// baseline. Classification is total: every set gets a level.
pub open spec fn classify_spec(flags: Seq<Seq<char>>) -> CpuType {
    if has_flag(flags, "avx512f"@) {
        CpuType::V4
    } else if has_flag(flags, "avx"@) && has_flag(flags, "avx2"@) {
        CpuType::V3
    } else if has_flag(flags, "sse4_2"@) && has_flag(flags, "popcnt"@) {
        CpuType::V2
    } else {
        CpuType::V1
    }
}

/// Whether `f` occurs among `flags`.
fn contains_flag(flags: &[String], f: &str) -> (r: bool)
    ensures
        r == has_flag(flags.deep_view(), f@),
{
    let n = flags.len();
    let mut k: usize = 0;
    while k < n
        invariant
            k <= n,
            n == flags@.len(),
            forall|j: int| 0 <= j < k ==> flags.deep_view()[j] != f@,
        decreases n - k,
    {
        if str_eq(flags[k].as_str(), f) {
            assert(flags.deep_view()[k as int] == f@);
            return true;
        }
        k = k + 1;
    }
    false
}

/// Growing a feature set never lowers its classification: every flag of `f1`
/// also in `f2` means `f1` classifies no higher than `f2`. Each rule of the
/// table only requires flags to be present, so a superset satisfies every
/// rule a subset does.
pub proof fn lemma_classify_monotonic(f1: Seq<Seq<char>>, f2: Seq<Seq<char>>)
    requires
        forall|f: Seq<char>| has_flag(f1, f) ==> has_flag(f2, f),
    ensures
        classify_spec(f1).rank() <= classify_spec(f2).rank(),
{
    assert(has_flag(f1, "avx512f"@) ==> has_flag(f2, "avx512f"@));
    assert(has_flag(f1, "avx"@) ==> has_flag(f2, "avx"@));
    assert(has_flag(f1, "avx2"@) ==> has_flag(f2, "avx2"@));
    assert(has_flag(f1, "sse4_2"@) ==> has_flag(f2, "sse4_2"@));
    assert(has_flag(f1, "popcnt"@) ==> has_flag(f2, "popcnt"@));
}

} // verus!
