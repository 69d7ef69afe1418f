//! Feature extractor: finds the feature-flag tokens in a raw multi-line CPU
//! description, as dumped by the remote system.

use vstd::prelude::*;

use crate::text::{
    after_first_colon, after_first_colon_str, split_lines, split_lines_spec, split_ws_spec,
    split_ws_tokens, str_starts_with, trim_spec, trim_str,
};

verus! {

/// The feature tokens of one trimmed `flags` line: everything after its
/// first `':'`, split on whitespace; no tokens when it holds no `':'`.
pub open spec fn line_flags(l: Seq<char>) -> Seq<Seq<char>> {
    match after_first_colon(l) {
        Some(rest) => split_ws_spec(rest),
        None => Seq::empty(),
    }
}

/// Whether a raw line carries the feature flags: its trimmed content begins
/// with the literal key `flags`.
pub open spec fn is_flags_line(raw: Seq<char>) -> bool {
    "flags"@.is_prefix_of(trim_spec(raw))
}

/// The feature tokens of the first flags line among `lines`, or none when no
/// line qualifies.
pub open spec fn flags_of_lines(lines: Seq<Seq<char>>) -> Seq<Seq<char>>
    decreases lines.len(),
{
    if lines.len() == 0 {
        Seq::empty()
    } else if is_flags_line(lines[0]) {
        line_flags(trim_spec(lines[0]))
    } else {
        flags_of_lines(lines.drop_first())
    }
}

/// The feature tokens a raw CPU description yields.
pub open spec fn extract_flags_spec(text: Seq<char>) -> Seq<Seq<char>> {
    flags_of_lines(split_lines_spec(text))
}

/// Returns the feature-flag tokens found on the first line of `cpuinfo`
/// whose trimmed content begins with `flags`: everything after the first
/// `':'` on that line, split on runs of whitespace. Yields no tokens, and
/// never an error, when no such line or no `':'` exists.
pub fn extract_flags(cpuinfo: &str) -> (flags: Vec<String>)
    ensures
        flags.deep_view() == extract_flags_spec(cpuinfo@),
{
    let lines = split_lines(cpuinfo);
    let ghost lv = lines.deep_view();
    proof {
        assert(lv.skip(0) =~= lv);
    }
    let mut i: usize = 0;
    while i < lines.len()
        invariant
            i <= lines@.len(),
            lv == lines.deep_view(),
            lv.len() == lines@.len(),
            extract_flags_spec(cpuinfo@) == flags_of_lines(lv.skip(i as int)),
        decreases lines@.len() - i,
    {
        proof {
            assert(lv.skip(i as int)[0] == lv[i as int]);
            assert(lv.skip(i as int).drop_first() =~= lv.skip(i as int + 1));
        }
        let line: &String = &lines[i];
        let trimmed = trim_str(line.as_str());
        if str_starts_with(trimmed, "flags") {
            match after_first_colon_str(trimmed) {
                Some(rest) => {
                    let toks = split_ws_tokens(rest);
                    return toks;
                },
                None => {
                    let toks: Vec<String> = Vec::new();
                    proof {
                        assert(toks.deep_view() =~= Seq::<Seq<char>>::empty());
                    }
                    return toks;
                },
            }
        }
        i = i + 1;
    }
    proof {
        assert(lv.skip(lv.len() as int) =~= Seq::<Seq<char>>::empty());
    }
    let toks: Vec<String> = Vec::new();
    proof {
        assert(toks.deep_view() =~= Seq::<Seq<char>>::empty());
    }
    toks
}

} // verus!
