//! Verified text utilities for the line-oriented descriptor formats handled
//! by this crate: trimming, string comparison, prefix tests, and splitting
//! into lines or whitespace-separated tokens.

use vstd::prelude::*;

verus! {

/// The whitespace characters this crate recognises. The descriptors it
/// handles are machine-generated ASCII text, so blanks, tabs and carriage
/// returns are the only separators that occur.
pub open spec fn is_ws(c: char) -> bool {
    c == ' ' || c == '\t' || c == '\r'
}

/// Executable counterpart of [`is_ws`].
pub fn is_ws_char(c: char) -> (r: bool)
    ensures
        r == is_ws(c),
{
    c == ' ' || c == '\t' || c == '\r'
}

/// `s` with leading and trailing whitespace removed.
pub open spec fn trim_spec(s: Seq<char>) -> Seq<char>
    decreases s.len(),
{
    if s.len() == 0 {
        s
    } else if is_ws(s[0]) {
        trim_spec(s.drop_first())
    } else if is_ws(s.last()) {
        trim_spec(s.drop_last())
    } else {
        s
    }
}

/// A subrange whose complement on either side is all whitespace and whose
/// endpoints are not whitespace is exactly the trimmed sequence.
proof fn lemma_trim_subrange(s: Seq<char>, i: int, j: int)
    requires
        0 <= i <= j <= s.len(),
        forall|k: int| 0 <= k < i ==> is_ws(s[k]),
        forall|k: int| j <= k < s.len() ==> is_ws(s[k]),
        i < j ==> !is_ws(s[i]) && !is_ws(s[j - 1]),
    ensures
        trim_spec(s) == s.subrange(i, j),
    decreases s.len(),
{
    if s.len() == 0 {
        assert(trim_spec(s) =~= s.subrange(i, j));
    } else if i > 0 {
        let t = s.drop_first();
        lemma_trim_subrange(t, i - 1, j - 1);
        assert(t.subrange(i - 1, j - 1) =~= s.subrange(i, j));
    } else if i == j {
        // the whole sequence is whitespace
        let t = s.drop_first();
        lemma_trim_subrange(t, 0, 0);
        assert(t.subrange(0, 0) =~= s.subrange(i, j));
    } else if j < s.len() {
        // first char is kept, last char is whitespace
        let t = s.drop_last();
        lemma_trim_subrange(t, 0, j);
        assert(t.subrange(0, j) =~= s.subrange(i, j));
    } else {
        assert(trim_spec(s) == s);
        assert(s.subrange(0, s.len() as int) =~= s);
    }
}

/// Index of the first non-whitespace character of `s`, or its length when
/// there is none.
fn first_non_ws(s: &str) -> (i: usize)
    ensures
        0 <= i <= s@.len(),
        forall|k: int| 0 <= k < i ==> is_ws(s@[k]),
        i < s@.len() ==> !is_ws(s@[i as int]),
{
    let n = s.unicode_len();
    let mut i: usize = 0;
    loop
        invariant
            i <= n,
            n == s@.len(),
            forall|k: int| 0 <= k < i ==> is_ws(s@[k]),
        decreases n - i,
    {
        if i == n {
            return i;
        }
        if !is_ws_char(s.get_char(i)) {
            return i;
        }
        i = i + 1;
    }
}

/// One past the last non-whitespace character of `s`, or `0` when there is
/// none.
fn after_last_non_ws(s: &str) -> (j: usize)
    ensures
        0 <= j <= s@.len(),
        forall|k: int| j <= k < s@.len() ==> is_ws(s@[k]),
        j > 0 ==> !is_ws(s@[j - 1]),
{
    let n = s.unicode_len();
    let mut j: usize = n;
    loop
        invariant
            j <= n,
            n == s@.len(),
            forall|k: int| j <= k < s@.len() ==> is_ws(s@[k]),
        decreases j,
    {
        if j == 0 {
            return j;
        }
        if !is_ws_char(s.get_char(j - 1)) {
            return j;
        }
        j = j - 1;
    }
}

/// Removes leading and trailing whitespace.
pub fn trim_str<'a>(s: &'a str) -> (r: &'a str)
    ensures
        r@ == trim_spec(s@),
{
    let i = first_non_ws(s);
    let j = after_last_non_ws(s);
    if i >= j {
        proof {
            lemma_trim_subrange(s@, 0, 0);
            assert(s@.subrange(0, 0) =~= ""@) by {
                reveal_strlit("");
            }
        }
        ""
    } else {
        proof {
            lemma_trim_subrange(s@, i as int, j as int);
        }
        s.substring_char(i, j)
    }
}

/// Whether two strings hold the same characters.
pub fn str_eq(a: &str, b: &str) -> (r: bool)
    ensures
        r == (a@ == b@),
{
    let n = a.unicode_len();
    let m = b.unicode_len();
    if n != m {
        return false;
    }
    let mut i: usize = 0;
    while i < n
        invariant
            i <= n,
            n == a@.len(),
            n == b@.len(),
            forall|k: int| 0 <= k < i ==> a@[k] == b@[k],
        decreases n - i,
    {
        if a.get_char(i) != b.get_char(i) {
            return false;
        }
        i = i + 1;
    }
    proof {
        assert(a@ =~= b@);
    }
    true
}

/// Whether `p` is a prefix of `s`.
pub fn str_starts_with(s: &str, p: &str) -> (r: bool)
    ensures
        r == p@.is_prefix_of(s@),
{
    let n = s.unicode_len();
    let m = p.unicode_len();
    if m > n {
        return false;
    }
    let mut i: usize = 0;
    while i < m
        invariant
            i <= m,
            m <= n,
            n == s@.len(),
            m == p@.len(),
            forall|k: int| 0 <= k < i ==> s@[k] == p@[k],
        decreases m - i,
    {
        if s.get_char(i) != p.get_char(i) {
            return false;
        }
        i = i + 1;
    }
    proof {
        assert(p@ =~= s@.subrange(0, p@.len() as int));
    }
    true
}

/// The lines of `s`, split on `'\n'`, while the start of the current line is
/// carried in `cur`. A text without a final newline still yields its last
/// line; a final newline yields a trailing empty line, which every consumer
/// in this crate ignores.
pub open spec fn split_lines_rec(s: Seq<char>, cur: Seq<char>) -> Seq<Seq<char>>
    decreases s.len(),
{
    if s.len() == 0 {
        seq![cur]
    } else if s[0] == '\n' {
        seq![cur] + split_lines_rec(s.drop_first(), Seq::empty())
    } else {
        split_lines_rec(s.drop_first(), cur.push(s[0]))
    }
}

/// The lines of `s`, split on `'\n'`.
pub open spec fn split_lines_spec(s: Seq<char>) -> Seq<Seq<char>> {
    split_lines_rec(s, Seq::empty())
}

/// Splits `s` into its lines.
pub fn split_lines(s: &str) -> (lines: Vec<String>)
    ensures
        lines.deep_view() == split_lines_spec(s@),
{
    let n = s.unicode_len();
    let mut lines: Vec<String> = Vec::new();
    let mut start: usize = 0;
    let mut i: usize = 0;
    proof {
        assert(s@.skip(0) =~= s@);
        assert(s@.subrange(0, 0) =~= Seq::<char>::empty());
        assert(lines.deep_view() =~= Seq::<Seq<char>>::empty());
        assert(Seq::<Seq<char>>::empty() + split_lines_rec(s@, Seq::empty())
            =~= split_lines_rec(s@, Seq::empty()));
    }
    while i < n
        invariant
            start <= i <= n,
            n == s@.len(),
            split_lines_spec(s@) == lines.deep_view() + split_lines_rec(
                s@.skip(i as int),
                s@.subrange(start as int, i as int),
            ),
        decreases n - i,
    {
        let ghost prev = lines.deep_view();
        let ghost rest = s@.skip(i as int);
        let ghost cur = s@.subrange(start as int, i as int);
        proof {
            assert(rest[0] == s@[i as int]);
            assert(rest.drop_first() =~= s@.skip(i as int + 1));
        }
        let c = s.get_char(i);
        if c == '\n' {
            let line = s.substring_char(start, i);
            lines.push(String::from_str(line));
            proof {
                assert(lines.deep_view() =~= prev.push(cur));
                assert(prev + (seq![cur] + split_lines_rec(rest.drop_first(), Seq::empty()))
                    =~= prev.push(cur) + split_lines_rec(rest.drop_first(), Seq::empty()));
                assert(s@.subrange(i as int + 1, i as int + 1) =~= Seq::<char>::empty());
            }
            start = i + 1;
        } else {
            proof {
                assert(cur.push(s@[i as int]) =~= s@.subrange(start as int, i as int + 1));
            }
        }
        i = i + 1;
    }
    proof {
        assert(s@.skip(n as int) =~= Seq::<char>::empty());
    }
    let ghost prev = lines.deep_view();
    let line = s.substring_char(start, n);
    lines.push(String::from_str(line));
    proof {
        assert(lines.deep_view() =~= prev.push(s@.subrange(start as int, n as int)));
        assert(prev + seq![s@.subrange(start as int, n as int)]
            =~= prev.push(s@.subrange(start as int, n as int)));
    }
    lines
}

/// Trimming never lengthens a sequence.
proof fn lemma_trim_len(s: Seq<char>)
    ensures
        trim_spec(s).len() <= s.len(),
    decreases s.len(),
{
    if s.len() == 0 {
    } else if is_ws(s[0]) {
        lemma_trim_len(s.drop_first());
    } else if is_ws(s.last()) {
        lemma_trim_len(s.drop_last());
    }
}

/// A sequence whose ends are not whitespace trims to itself.
pub proof fn lemma_trim_noop(s: Seq<char>)
    requires
        s.len() > 0,
        !is_ws(s[0]),
        !is_ws(s.last()),
    ensures
        trim_spec(s) == s,
{
    lemma_trim_subrange(s, 0, s.len() as int);
    assert(s.subrange(0, s.len() as int) =~= s);
}

/// A non-empty sequence that trims to itself has no whitespace at either
/// end.
pub proof fn lemma_trimmed_endpoints(x: Seq<char>)
    requires
        x.len() > 0,
        trim_spec(x) == x,
    ensures
        !is_ws(x[0]),
        !is_ws(x.last()),
{
    if is_ws(x[0]) {
        lemma_trim_len(x.drop_first());
        assert(trim_spec(x).len() < x.len());
    } else if is_ws(x.last()) {
        lemma_trim_len(x.drop_last());
        assert(trim_spec(x).len() < x.len());
    }
}

/// A single leading blank disappears under trimming.
pub proof fn lemma_trim_space_prefix(x: Seq<char>)
    requires
        x.len() > 0,
        trim_spec(x) == x,
    ensures
        trim_spec(seq![' '] + x) == x,
{
    lemma_trimmed_endpoints(x);
    let s = seq![' '] + x;
    lemma_trim_subrange(s, 1, s.len() as int);
    assert(s.subrange(1, s.len() as int) =~= x);
}

/// A sequence none of whose characters is a newline.
pub open spec fn line_free(s: Seq<char>) -> bool {
    forall|k: int| 0 <= k < s.len() ==> s[k] != '\n'
}

/// The text whose lines are `lines`, joined with `'\n'`.
pub open spec fn join_lines(lines: Seq<Seq<char>>) -> Seq<char>
    decreases lines.len(),
{
    if lines.len() == 0 {
        Seq::empty()
    } else if lines.len() == 1 {
        lines[0]
    } else {
        lines[0] + seq!['\n'] + join_lines(lines.drop_first())
    }
}

/// Scanning a newline-free prefix only accumulates it into the current
/// line.
proof fn lemma_split_rec_line(line: Seq<char>, rest: Seq<char>, cur: Seq<char>)
    requires
        line_free(line),
    ensures
        split_lines_rec(line + rest, cur) == split_lines_rec(rest, cur + line),
    decreases line.len(),
{
    if line.len() == 0 {
        assert(line + rest =~= rest);
        assert(cur + line =~= cur);
    } else {
        let s = line + rest;
        assert(s[0] == line[0]);
        assert(s[0] != '\n');
        assert(s.drop_first() =~= line.drop_first() + rest);
        lemma_split_rec_line(line.drop_first(), rest, cur.push(line[0]));
        assert(cur.push(line[0]) + line.drop_first() =~= cur + line);
    }
}

/// Splitting the joined lines gives the lines back, provided there is at
/// least one line and none holds a newline.
pub proof fn lemma_split_join(lines: Seq<Seq<char>>)
    requires
        lines.len() >= 1,
        forall|k: int| 0 <= k < lines.len() ==> line_free(#[trigger] lines[k]),
    ensures
        split_lines_spec(join_lines(lines)) == lines,
    decreases lines.len(),
{
    if lines.len() == 1 {
        lemma_split_rec_line(lines[0], Seq::empty(), Seq::empty());
        assert(lines[0] + Seq::<char>::empty() =~= lines[0]);
        assert(Seq::<char>::empty() + lines[0] =~= lines[0]);
        assert(split_lines_rec(Seq::empty(), lines[0]) == seq![lines[0]]);
        assert(seq![lines[0]] =~= lines);
    } else {
        let rest_text = join_lines(lines.drop_first());
        let nl_rest = seq!['\n'] + rest_text;
        assert(join_lines(lines) =~= lines[0] + nl_rest);
        lemma_split_rec_line(lines[0], nl_rest, Seq::empty());
        assert(Seq::<char>::empty() + lines[0] =~= lines[0]);
        assert(nl_rest[0] == '\n');
        assert(nl_rest.drop_first() =~= rest_text);
        lemma_split_join(lines.drop_first());
        assert(seq![lines[0]] + lines.drop_first() =~= lines);
    }
}

/// The token `cur` alone when it is non-empty, else no token at all.
pub open spec fn emit_token(cur: Seq<char>) -> Seq<Seq<char>> {
    if cur.len() > 0 {
        seq![cur]
    } else {
        Seq::empty()
    }
}

/// The whitespace-separated tokens of `s`, while the token being read is
/// carried in `cur`. Runs of whitespace collapse: no empty token is ever
/// emitted.
pub open spec fn split_ws_rec(s: Seq<char>, cur: Seq<char>) -> Seq<Seq<char>>
    decreases s.len(),
{
    if s.len() == 0 {
        emit_token(cur)
    } else if is_ws(s[0]) {
        emit_token(cur) + split_ws_rec(s.drop_first(), Seq::empty())
    } else {
        split_ws_rec(s.drop_first(), cur.push(s[0]))
    }
}

/// The whitespace-separated tokens of `s`.
pub open spec fn split_ws_spec(s: Seq<char>) -> Seq<Seq<char>> {
    split_ws_rec(s, Seq::empty())
}

/// Splits `s` into its whitespace-separated tokens.
pub fn split_ws_tokens(s: &str) -> (toks: Vec<String>)
    ensures
        toks.deep_view() == split_ws_spec(s@),
{
    let n = s.unicode_len();
    let mut toks: Vec<String> = Vec::new();
    let mut start: usize = 0;
    let mut i: usize = 0;
    proof {
        assert(s@.skip(0) =~= s@);
        assert(s@.subrange(0, 0) =~= Seq::<char>::empty());
        assert(toks.deep_view() =~= Seq::<Seq<char>>::empty());
        assert(Seq::<Seq<char>>::empty() + split_ws_rec(s@, Seq::empty())
            =~= split_ws_rec(s@, Seq::empty()));
    }
    while i < n
        invariant
            start <= i <= n,
            n == s@.len(),
            split_ws_spec(s@) == toks.deep_view() + split_ws_rec(
                s@.skip(i as int),
                s@.subrange(start as int, i as int),
            ),
        decreases n - i,
    {
        let ghost prev = toks.deep_view();
        let ghost rest = s@.skip(i as int);
        let ghost cur = s@.subrange(start as int, i as int);
        proof {
            assert(rest[0] == s@[i as int]);
            assert(rest.drop_first() =~= s@.skip(i as int + 1));
        }
        let c = s.get_char(i);
        if is_ws_char(c) {
            if start < i {
                let t = s.substring_char(start, i);
                toks.push(String::from_str(t));
                proof {
                    assert(toks.deep_view() =~= prev.push(cur));
                    assert(emit_token(cur) =~= seq![cur]);
                    assert(prev + (seq![cur] + split_ws_rec(rest.drop_first(), Seq::empty()))
                        =~= prev.push(cur) + split_ws_rec(rest.drop_first(), Seq::empty()));
                }
            } else {
                proof {
                    assert(cur =~= Seq::<char>::empty());
                    assert(emit_token(cur) + split_ws_rec(rest.drop_first(), Seq::empty())
                        =~= split_ws_rec(rest.drop_first(), Seq::empty()));
                }
            }
            proof {
                assert(s@.subrange(i as int + 1, i as int + 1) =~= Seq::<char>::empty());
            }
            start = i + 1;
        } else {
            proof {
                assert(cur.push(s@[i as int]) =~= s@.subrange(start as int, i as int + 1));
            }
        }
        i = i + 1;
    }
    proof {
        assert(s@.skip(n as int) =~= Seq::<char>::empty());
    }
    if start < n {
        let ghost prev = toks.deep_view();
        let ghost cur = s@.subrange(start as int, n as int);
        let t = s.substring_char(start, n);
        toks.push(String::from_str(t));
        proof {
            assert(toks.deep_view() =~= prev.push(cur));
            assert(emit_token(cur) =~= seq![cur]);
            assert(prev + seq![cur] =~= prev.push(cur));
        }
    } else {
        proof {
            assert(s@.subrange(start as int, n as int) =~= Seq::<char>::empty());
            assert(toks.deep_view() + emit_token(Seq::empty()) =~= toks.deep_view());
        }
    }
    toks
}

/// What follows the first `':'` of `s`, or nothing when `s` has no `':'`.
pub open spec fn after_first_colon(s: Seq<char>) -> Option<Seq<char>>
    decreases s.len(),
{
    if s.len() == 0 {
        None
    } else if s[0] == ':' {
        Some(s.drop_first())
    } else {
        after_first_colon(s.drop_first())
    }
}

/// A scan that stops at index `i` on the first `':'` finds what
/// [`after_first_colon`] describes.
proof fn lemma_after_colon_at(s: Seq<char>, i: int)
    requires
        0 <= i <= s.len(),
        forall|k: int| 0 <= k < i ==> s[k] != ':',
        i < s.len() ==> s[i] == ':',
    ensures
        i < s.len() ==> after_first_colon(s) == Some(s.skip(i + 1)),
        i == s.len() ==> after_first_colon(s) is None,
    decreases s.len(),
{
    if s.len() == 0 {
    } else if i == 0 {
        if i < s.len() {
            assert(s.drop_first() =~= s.skip(1));
        }
    } else {
        let t = s.drop_first();
        lemma_after_colon_at(t, i - 1);
        if i < s.len() {
            assert(t.skip(i) =~= s.skip(i + 1));
        }
    }
}

/// The remainder of `s` after its first `':'`, or nothing when `s` holds no
/// `':'`.
pub fn after_first_colon_str<'a>(s: &'a str) -> (r: Option<&'a str>)
    ensures
        r is Some <==> after_first_colon(s@) is Some,
        r matches Some(t) ==> after_first_colon(s@) == Some(t@),
{
    let n = s.unicode_len();
    let mut i: usize = 0;
    loop
        invariant
            i <= n,
            n == s@.len(),
            forall|k: int| 0 <= k < i ==> s@[k] != ':',
        decreases n - i,
    {
        if i == n {
            proof {
                lemma_after_colon_at(s@, n as int);
            }
            return None;
        }
        if s.get_char(i) == ':' {
            proof {
                lemma_after_colon_at(s@, i as int);
            }
            let rest = s.substring_char(i + 1, n);
            proof {
                assert(rest@ =~= s@.skip(i as int + 1));
            }
            return Some(rest);
        }
        i = i + 1;
    }
}

} // verus!
