//! Parser for the block-structured cluster-membership descriptor.
//!
//! The descriptor lists the member nodes of a cluster inside a `nodelist {`
//! block, one `node {` block per member, each carrying a `name:` and a
//! `ring0_addr:` key. A single forward scan over the lines keeps two scope
//! booleans and two scratch fields; a node is emitted when its block closes
//! with both fields present, and is dropped otherwise. Malformed input never
//! fails: lines that fit no rule are ignored.

use vstd::prelude::*;

use crate::text::{
    join_lines, lemma_split_join, lemma_trim_noop, lemma_trim_space_prefix,
    lemma_trimmed_endpoints, line_free, split_lines, split_lines_spec, str_eq, str_starts_with,
    trim_spec, trim_str,
};

verus! {

/// One cluster member as recorded in the membership descriptor: an identity
/// only, with no classification result attached.
#[derive(Debug)]
pub struct Node {
    /// Identifier of the member, unique within a well-kept cluster.
    pub name: String,
    /// The member's primary cluster-communication address (IP or hostname).
    pub ring0_addr: String,
}

impl View for Node {
    type V = (Seq<char>, Seq<char>);

    open spec fn view(&self) -> (Seq<char>, Seq<char>) {
        (self.name@, self.ring0_addr@)
    }
}

/// The `(name, address)` pairs a sequence of nodes holds.
pub open spec fn nodes_view(ns: Seq<Node>) -> Seq<(Seq<char>, Seq<char>)> {
    ns.map_values(|n: Node| n@)
}

/// The scan state of the membership parser: which scopes the scan is inside
/// of, the scratch fields of the node block being read, and the nodes
/// emitted so far.
pub struct ParseState {
    pub in_nodelist: bool,
    pub in_node: bool,
    pub cur_name: Option<Seq<char>>,
    pub cur_addr: Option<Seq<char>>,
    pub nodes: Seq<(Seq<char>, Seq<char>)>,
}

/// The state the scan starts from: outside every scope, nothing emitted.
pub open spec fn init_state() -> ParseState {
    ParseState {
        in_nodelist: false,
        in_node: false,
        cur_name: None,
        cur_addr: None,
        nodes: Seq::empty(),
    }
}

/// How one line of the descriptor advances the scan state.
pub open spec fn step_line(st: ParseState, raw: Seq<char>) -> ParseState {
    let l = trim_spec(raw);
    if l == "nodelist {"@ {
        ParseState { in_nodelist: true, ..st }
    } else if l == "node {"@ && st.in_nodelist {
        ParseState { in_node: true, cur_name: None, cur_addr: None, ..st }
    } else if l == "}"@ && st.in_node {
        if st.cur_name is Some && st.cur_addr is Some {
            ParseState {
                in_node: false,
                cur_name: None,
                cur_addr: None,
                nodes: st.nodes.push((st.cur_name->0, st.cur_addr->0)),
                ..st
            }
        } else {
            ParseState { in_node: false, cur_name: None, cur_addr: None, ..st }
        }
    } else if l == "}"@ && st.in_nodelist {
        ParseState { in_nodelist: false, ..st }
    } else if st.in_node {
        if "name:"@.is_prefix_of(l) {
            ParseState { cur_name: Some(trim_spec(l.skip("name:"@.len() as int))), ..st }
        } else if "ring0_addr:"@.is_prefix_of(l) {
            ParseState { cur_addr: Some(trim_spec(l.skip("ring0_addr:"@.len() as int))), ..st }
        } else {
            st
        }
    } else {
        st
    }
}

/// The scan state after feeding every line of `lines` to `step_line`,
/// starting from `st`.
pub open spec fn run_from(st: ParseState, lines: Seq<Seq<char>>) -> ParseState
    decreases lines.len(),
{
    if lines.len() == 0 {
        st
    } else {
        run_from(step_line(st, lines[0]), lines.drop_first())
    }
}

/// The scan state after feeding every line of `lines`, starting fresh.
pub open spec fn run_state(lines: Seq<Seq<char>>) -> ParseState {
    run_from(init_state(), lines)
}

/// The `(name, address)` pairs the parser extracts from a descriptor text.
pub open spec fn parse_nodes_spec(text: Seq<char>) -> Seq<(Seq<char>, Seq<char>)> {
    run_state(split_lines_spec(text)).nodes
}

/// Feeding lines one block at a time is the same as feeding them all at
/// once.
proof fn lemma_run_from_append(st: ParseState, a: Seq<Seq<char>>, b: Seq<Seq<char>>)
    ensures
        run_from(st, a + b) == run_from(run_from(st, a), b),
    decreases a.len(),
{
    if a.len() == 0 {
        assert(a + b =~= b);
    } else {
        assert((a + b)[0] == a[0]);
        assert((a + b).drop_first() =~= a.drop_first() + b);
        lemma_run_from_append(step_line(st, a[0]), a.drop_first(), b);
    }
}

/// Feeding one more line steps the state of the lines before it.
proof fn lemma_run_from_snoc(st: ParseState, lines: Seq<Seq<char>>, l: Seq<char>)
    ensures
        run_from(st, lines.push(l)) == step_line(run_from(st, lines), l),
{
    lemma_run_from_append(st, lines, seq![l]);
    assert(lines + seq![l] =~= lines.push(l));
    let st1 = run_from(st, lines);
    assert(seq![l][0] == l);
    assert(seq![l].drop_first() =~= Seq::<Seq<char>>::empty());
    assert(run_from(st1, seq![l]) == run_from(step_line(st1, l), Seq::<Seq<char>>::empty()));
    assert(run_from(step_line(st1, l), Seq::<Seq<char>>::empty()) == step_line(st1, l));
}

/// Parses the full text of a cluster-membership descriptor into the ordered
/// list of member identities it describes. Blocks that lack either key are
/// dropped; malformed text yields a best-effort list, never an error.
pub fn parse_corosync_conf(content: &str) -> (nodes: Vec<Node>)
    ensures
        nodes_view(nodes@) == parse_nodes_spec(content@),
{
    let lines = split_lines(content);
    let ghost lv = lines.deep_view();
    let mut nodes: Vec<Node> = Vec::new();
    let mut in_nodelist = false;
    let mut in_node = false;
    let mut cur_name: Option<String> = None;
    let mut cur_addr: Option<String> = None;
    let mut idx: usize = 0;
    proof {
        assert(lv.take(0) =~= Seq::<Seq<char>>::empty());
        assert(nodes_view(nodes@) =~= Seq::<(Seq<char>, Seq<char>)>::empty());
    }
    while idx < lines.len()
        invariant
            idx <= lines.len(),
            lv == lines.deep_view(),
            lv.len() == lines@.len(),
            run_from(init_state(), lv.take(idx as int)).in_nodelist == in_nodelist,
            run_from(init_state(), lv.take(idx as int)).in_node == in_node,
            run_from(init_state(), lv.take(idx as int)).cur_name == cur_name.deep_view(),
            run_from(init_state(), lv.take(idx as int)).cur_addr == cur_addr.deep_view(),
            run_from(init_state(), lv.take(idx as int)).nodes == nodes_view(nodes@),
        decreases lines@.len() - idx,
    {
        let ghost st0 = run_from(init_state(), lv.take(idx as int));
        proof {
            lemma_run_from_snoc(init_state(), lv.take(idx as int), lv[idx as int]);
            assert(lv.take(idx as int).push(lv[idx as int]) =~= lv.take(idx as int + 1));
        }
        let line: &String = &lines[idx];
        let trimmed = trim_str(line.as_str());
        if str_eq(trimmed, "nodelist {") {
            in_nodelist = true;
        } else if in_nodelist && str_eq(trimmed, "node {") {
            in_node = true;
            cur_name = None;
            cur_addr = None;
        } else if in_node && str_eq(trimmed, "}") {
            let ghost gname = cur_name.deep_view();
            let ghost gaddr = cur_addr.deep_view();
            let name_opt = cur_name;
            let addr_opt = cur_addr;
            cur_name = None;
            cur_addr = None;
            in_node = false;
            match (name_opt, addr_opt) {
                (Some(name), Some(addr)) => {
                    let ghost pair = (name@, addr@);
                    nodes.push(Node { name, ring0_addr: addr });
                    proof {
                        assert(nodes_view(nodes@) =~= st0.nodes.push(pair));
                    }
                },
                _ => {},
            }
        } else if in_nodelist && str_eq(trimmed, "}") {
            in_nodelist = false;
        } else if in_node {
            proof {
                reveal_strlit("name:");
                reveal_strlit("ring0_addr:");
            }
            if str_starts_with(trimmed, "name:") {
                let rest = trimmed.substring_char(5, trimmed.unicode_len());
                cur_name = Some(String::from_str(trim_str(rest)));
            } else if str_starts_with(trimmed, "ring0_addr:") {
                let rest = trimmed.substring_char(11, trimmed.unicode_len());
                cur_addr = Some(String::from_str(trim_str(rest)));
            }
        }
        idx = idx + 1;
    }
    proof {
        assert(lv.take(lv.len() as int) =~= lv);
    }
    nodes
}

/// A field value as a well-formed descriptor would carry it: non-empty,
/// already trimmed, and on one line.
pub open spec fn good_field(x: Seq<char>) -> bool {
    &&& x.len() > 0
    &&& trim_spec(x) == x
    &&& line_free(x)
}

/// The `name:` line a descriptor writes for the value `x`.
pub open spec fn name_line(x: Seq<char>) -> Seq<char> {
    "name: "@ + x
}

/// The `ring0_addr:` line a descriptor writes for the value `y`.
pub open spec fn addr_line(y: Seq<char>) -> Seq<char> {
    "ring0_addr: "@ + y
}

/// The lines of one `node {` block holding the given fields, either of which
/// may be absent.
pub open spec fn render_block(name: Option<Seq<char>>, addr: Option<Seq<char>>) -> Seq<Seq<char>> {
    seq!["node {"@] + (match name {
        Some(x) => seq![name_line(x)],
        None => Seq::empty(),
    }) + (match addr {
        Some(y) => seq![addr_line(y)],
        None => Seq::empty(),
    }) + seq!["}"@]
}

/// The lines of a run of `node {` blocks.
pub open spec fn render_blocks(blocks: Seq<(Option<Seq<char>>, Option<Seq<char>>)>) -> Seq<
    Seq<char>,
>
    decreases blocks.len(),
{
    if blocks.len() == 0 {
        Seq::empty()
    } else {
        render_block(blocks[0].0, blocks[0].1) + render_blocks(blocks.drop_first())
    }
}

/// The lines of a whole membership descriptor holding the given blocks.
pub open spec fn render_doc(blocks: Seq<(Option<Seq<char>>, Option<Seq<char>>)>) -> Seq<Seq<char>> {
    seq!["nodelist {"@] + render_blocks(blocks) + seq!["}"@]
}

/// The full text of a membership descriptor holding the given blocks.
pub open spec fn render_membership_text(
    blocks: Seq<(Option<Seq<char>>, Option<Seq<char>>)>,
) -> Seq<char> {
    join_lines(render_doc(blocks))
}

/// The node a block yields: its pair of fields when both are present,
/// nothing otherwise.
pub open spec fn kept_block(name: Option<Seq<char>>, addr: Option<Seq<char>>) -> Seq<
    (Seq<char>, Seq<char>),
> {
    match (name, addr) {
        (Some(x), Some(y)) => seq![(x, y)],
        _ => Seq::empty(),
    }
}

/// The nodes a run of blocks yields, in order: exactly the blocks with both
/// fields present.
pub open spec fn kept_blocks(blocks: Seq<(Option<Seq<char>>, Option<Seq<char>>)>) -> Seq<
    (Seq<char>, Seq<char>),
>
    decreases blocks.len(),
{
    if blocks.len() == 0 {
        Seq::empty()
    } else {
        kept_block(blocks[0].0, blocks[0].1) + kept_blocks(blocks.drop_first())
    }
}

/// Every field a run of blocks carries is well-formed.
pub open spec fn good_blocks(blocks: Seq<(Option<Seq<char>>, Option<Seq<char>>)>) -> bool {
    forall|k: int|
        0 <= k < blocks.len() ==> ((#[trigger] blocks[k]).0 matches Some(x) ==> good_field(x))
            && (blocks[k].1 matches Some(y) ==> good_field(y))
}

/// Feeding a single line is one step.
proof fn lemma_run_from_one(st: ParseState, l: Seq<char>)
    ensures
        run_from(st, seq![l]) == step_line(st, l),
{
    assert(seq![l][0] == l);
    assert(seq![l].drop_first() =~= Seq::<Seq<char>>::empty());
    assert(run_from(step_line(st, l), Seq::<Seq<char>>::empty()) == step_line(st, l));
}

/// Feeding a non-empty line sequence steps its first line first.
proof fn lemma_run_cons(st: ParseState, l: Seq<char>, rest: Seq<Seq<char>>)
    ensures
        run_from(st, seq![l] + rest) == run_from(step_line(st, l), rest),
{
    assert((seq![l] + rest)[0] == l);
    assert((seq![l] + rest).drop_first() =~= rest);
}

/// The three fixed structural lines trim to themselves, differ pairwise, and
/// hold no newline.
proof fn lemma_literal_lines()
    ensures
        trim_spec("nodelist {"@) == "nodelist {"@,
        trim_spec("node {"@) == "node {"@,
        trim_spec("}"@) == "}"@,
        "node {"@ != "nodelist {"@,
        "}"@ != "nodelist {"@,
        "}"@ != "node {"@,
        line_free("nodelist {"@),
        line_free("node {"@),
        line_free("}"@),
{
    reveal_strlit("nodelist {");
    reveal_strlit("node {");
    reveal_strlit("}");
    lemma_trim_noop("nodelist {"@);
    lemma_trim_noop("node {"@);
    lemma_trim_noop("}"@);
}

/// Inside a node block, a rendered `name:` line sets the name scratch field
/// to its value and changes nothing else.
proof fn lemma_step_name_line(st: ParseState, x: Seq<char>)
    requires
        st.in_node,
        good_field(x),
    ensures
        step_line(st, name_line(x)) == (ParseState { cur_name: Some(x), ..st }),
{
    reveal_strlit("name: ");
    reveal_strlit("name:");
    reveal_strlit("nodelist {");
    reveal_strlit("node {");
    reveal_strlit("}");
    let l = name_line(x);
    lemma_trimmed_endpoints(x);
    assert(l[0] == 'n');
    assert(l.last() == x.last());
    lemma_trim_noop(l);
    assert(l.len() >= 7);
    assert(l != "node {"@);
    assert(l != "}"@);
    assert(l[1] == 'a');
    assert("nodelist {"@[1] == 'o');
    assert(l != "nodelist {"@);
    assert("name:"@ =~= l.subrange(0, 5));
    assert("name:"@.is_prefix_of(l));
    assert(l.skip(5) =~= seq![' '] + x);
    lemma_trim_space_prefix(x);
}

/// Inside a node block, a rendered `ring0_addr:` line sets the address
/// scratch field to its value and changes nothing else.
proof fn lemma_step_addr_line(st: ParseState, y: Seq<char>)
    requires
        st.in_node,
        good_field(y),
    ensures
        step_line(st, addr_line(y)) == (ParseState { cur_addr: Some(y), ..st }),
{
    reveal_strlit("ring0_addr: ");
    reveal_strlit("ring0_addr:");
    reveal_strlit("name:");
    reveal_strlit("nodelist {");
    reveal_strlit("node {");
    reveal_strlit("}");
    let l = addr_line(y);
    lemma_trimmed_endpoints(y);
    assert(l[0] == 'r');
    assert(l.last() == y.last());
    lemma_trim_noop(l);
    assert(l.len() >= 13);
    assert(l != "nodelist {"@);
    assert(l != "node {"@);
    assert(l != "}"@);
    assert(!"name:"@.is_prefix_of(l)) by {
        if "name:"@.is_prefix_of(l) {
            assert("name:"@[0] == l.subrange(0, 5)[0]);
            assert(l.subrange(0, 5)[0] == l[0]);
        }
    }
    assert("ring0_addr:"@ =~= l.subrange(0, 11));
    assert("ring0_addr:"@.is_prefix_of(l));
    assert(l.skip(11) =~= seq![' '] + y);
    lemma_trim_space_prefix(y);
}

/// One rendered block, fed to the scan inside the nodelist scope, emits its
/// node exactly when both fields are present, and returns the scan to the
/// nodelist scope with clear scratch fields.
proof fn lemma_run_block(st: ParseState, name: Option<Seq<char>>, addr: Option<Seq<char>>)
    requires
        st.in_nodelist,
        !st.in_node,
        name matches Some(x) ==> good_field(x),
        addr matches Some(y) ==> good_field(y),
    ensures
        run_from(st, render_block(name, addr)) == (ParseState {
            in_nodelist: true,
            in_node: false,
            cur_name: None,
            cur_addr: None,
            nodes: st.nodes + kept_block(name, addr),
        }),
{
    lemma_literal_lines();
    let ls = render_block(name, addr);
    let st1 = ParseState { in_node: true, cur_name: None, cur_addr: None, ..st };
    assert(step_line(st, "node {"@) == st1);
    match (name, addr) {
        (Some(x), Some(y)) => {
            let rest2 = seq![addr_line(y)] + seq!["}"@];
            let rest1 = seq![name_line(x)] + rest2;
            assert(ls =~= seq!["node {"@] + rest1);
            lemma_run_cons(st, "node {"@, rest1);
            lemma_run_cons(st1, name_line(x), rest2);
            lemma_step_name_line(st1, x);
            let st2 = ParseState { cur_name: Some(x), ..st1 };
            lemma_run_from_one(st2, addr_line(y));
            lemma_run_cons(st2, addr_line(y), seq!["}"@]);
            lemma_step_addr_line(st2, y);
            let st3 = ParseState { cur_addr: Some(y), ..st2 };
            lemma_run_from_one(st3, "}"@);
            assert(st.nodes + kept_block(name, addr) =~= st.nodes.push((x, y)));
        },
        (Some(x), None) => {
            let rest1 = seq![name_line(x)] + seq!["}"@];
            assert(ls =~= seq!["node {"@] + rest1);
            lemma_run_cons(st, "node {"@, rest1);
            lemma_run_cons(st1, name_line(x), seq!["}"@]);
            lemma_step_name_line(st1, x);
            let st2 = ParseState { cur_name: Some(x), ..st1 };
            lemma_run_from_one(st2, "}"@);
            assert(st.nodes + kept_block(name, addr) =~= st.nodes);
        },
        (None, Some(y)) => {
            let rest1 = seq![addr_line(y)] + seq!["}"@];
            assert(ls =~= seq!["node {"@] + rest1);
            lemma_run_cons(st, "node {"@, rest1);
            lemma_run_cons(st1, addr_line(y), seq!["}"@]);
            lemma_step_addr_line(st1, y);
            let st2 = ParseState { cur_addr: Some(y), ..st1 };
            lemma_run_from_one(st2, "}"@);
            assert(st.nodes + kept_block(name, addr) =~= st.nodes);
        },
        (None, None) => {
            assert(ls =~= seq!["node {"@] + seq!["}"@]);
            lemma_run_cons(st, "node {"@, seq!["}"@]);
            lemma_run_from_one(st1, "}"@);
            assert(st.nodes + kept_block(name, addr) =~= st.nodes);
        },
    }
}

/// A run of rendered blocks, fed inside the nodelist scope, appends exactly
/// the nodes of the complete blocks, in order.
proof fn lemma_run_blocks(st: ParseState, blocks: Seq<(Option<Seq<char>>, Option<Seq<char>>)>)
    requires
        st.in_nodelist,
        !st.in_node,
        st.cur_name is None,
        st.cur_addr is None,
        good_blocks(blocks),
    ensures
        run_from(st, render_blocks(blocks)) == (ParseState {
            in_nodelist: true,
            in_node: false,
            cur_name: None,
            cur_addr: None,
            nodes: st.nodes + kept_blocks(blocks),
        }),
    decreases blocks.len(),
{
    if blocks.len() == 0 {
        assert(st.nodes + kept_blocks(blocks) =~= st.nodes);
    } else {
        let b0 = blocks[0];
        let rest = blocks.drop_first();
        assert(good_blocks(rest)) by {
            assert forall|k: int|
                0 <= k < rest.len() implies ((#[trigger] rest[k]).0 matches Some(x)
                ==> good_field(x)) && (rest[k].1 matches Some(y) ==> good_field(y)) by {
                assert(rest[k] == blocks[k + 1]);
            }
        }
        lemma_run_from_append(st, render_block(b0.0, b0.1), render_blocks(rest));
        lemma_run_block(st, b0.0, b0.1);
        let st1 = ParseState {
            in_nodelist: true,
            in_node: false,
            cur_name: None,
            cur_addr: None,
            nodes: st.nodes + kept_block(b0.0, b0.1),
        };
        lemma_run_blocks(st1, rest);
        assert((st.nodes + kept_block(b0.0, b0.1)) + kept_blocks(rest) =~= st.nodes + kept_blocks(
            blocks,
        ));
    }
}

/// Scanning the lines of a rendered descriptor yields exactly the nodes of
/// its complete blocks, in order.
proof fn lemma_parse_rendered(blocks: Seq<(Option<Seq<char>>, Option<Seq<char>>)>)
    requires
        good_blocks(blocks),
    ensures
        run_state(render_doc(blocks)).nodes == kept_blocks(blocks),
{
    lemma_literal_lines();
    let st0 = init_state();
    let tail = render_blocks(blocks) + seq!["}"@];
    assert(render_doc(blocks) =~= seq!["nodelist {"@] + tail);
    lemma_run_cons(st0, "nodelist {"@, tail);
    let st1 = ParseState { in_nodelist: true, ..st0 };
    assert(step_line(st0, "nodelist {"@) == st1);
    lemma_run_from_append(st1, render_blocks(blocks), seq!["}"@]);
    lemma_run_blocks(st1, blocks);
    let st2 = ParseState {
        in_nodelist: true,
        in_node: false,
        cur_name: None,
        cur_addr: None,
        nodes: st1.nodes + kept_blocks(blocks),
    };
    lemma_run_from_one(st2, "}"@);
    assert(Seq::<(Seq<char>, Seq<char>)>::empty() + kept_blocks(blocks) =~= kept_blocks(blocks));
}

/// A line gluing a key literal to a newline-free field holds no newline.
proof fn lemma_field_lines_line_free(x: Seq<char>)
    requires
        line_free(x),
    ensures
        line_free(name_line(x)),
        line_free(addr_line(x)),
{
    reveal_strlit("name: ");
    reveal_strlit("ring0_addr: ");
    assert forall|k: int| 0 <= k < name_line(x).len() implies name_line(x)[k] != '\n' by {
        if k < 6 {
            assert(name_line(x)[k] == "name: "@[k]);
        } else {
            assert(name_line(x)[k] == x[k - 6]);
        }
    }
    assert forall|k: int| 0 <= k < addr_line(x).len() implies addr_line(x)[k] != '\n' by {
        if k < 12 {
            assert(addr_line(x)[k] == "ring0_addr: "@[k]);
        } else {
            assert(addr_line(x)[k] == x[k - 12]);
        }
    }
}

/// No line of a run of rendered well-formed blocks holds a newline.
proof fn lemma_render_blocks_line_free(blocks: Seq<(Option<Seq<char>>, Option<Seq<char>>)>)
    requires
        good_blocks(blocks),
    ensures
        forall|k: int|
            0 <= k < render_blocks(blocks).len() ==> line_free(#[trigger] render_blocks(blocks)[k]),
    decreases blocks.len(),
{
    lemma_literal_lines();
    if blocks.len() == 0 {
    } else {
        let b0 = blocks[0];
        let rest = blocks.drop_first();
        let head = render_block(b0.0, b0.1);
        assert(good_blocks(rest)) by {
            assert forall|k: int|
                0 <= k < rest.len() implies ((#[trigger] rest[k]).0 matches Some(x)
                ==> good_field(x)) && (rest[k].1 matches Some(y) ==> good_field(y)) by {
                assert(rest[k] == blocks[k + 1]);
            }
        }
        lemma_render_blocks_line_free(rest);
        assert(forall|k: int| 0 <= k < head.len() ==> line_free(#[trigger] head[k])) by {
            match (b0.0, b0.1) {
                (Some(x), Some(y)) => {
                    lemma_field_lines_line_free(x);
                    lemma_field_lines_line_free(y);
                    assert(head =~= seq!["node {"@, name_line(x), addr_line(y), "}"@]);
                },
                (Some(x), None) => {
                    lemma_field_lines_line_free(x);
                    assert(head =~= seq!["node {"@, name_line(x), "}"@]);
                },
                (None, Some(y)) => {
                    lemma_field_lines_line_free(y);
                    assert(head =~= seq!["node {"@, addr_line(y), "}"@]);
                },
                (None, None) => {
                    assert(head =~= seq!["node {"@, "}"@]);
                },
            }
        }
        assert forall|k: int|
            0 <= k < render_blocks(blocks).len() implies line_free(
            #[trigger] render_blocks(blocks)[k],
        ) by {
            if k < head.len() {
                assert(render_blocks(blocks)[k] == head[k]);
            } else {
                assert(render_blocks(blocks)[k] == render_blocks(rest)[k - head.len()]);
            }
        }
    }
}

/// Parsing a rendered membership descriptor returns exactly the nodes of its
/// complete blocks, in source order: a block missing either field is omitted
/// from the result, and a document with no blocks yields no nodes.
pub proof fn lemma_membership_round_trip(blocks: Seq<(Option<Seq<char>>, Option<Seq<char>>)>)
    requires
        good_blocks(blocks),
    ensures
        parse_nodes_spec(render_membership_text(blocks)) == kept_blocks(blocks),
{
    lemma_literal_lines();
    lemma_render_blocks_line_free(blocks);
    let doc = render_doc(blocks);
    assert forall|k: int| 0 <= k < doc.len() implies line_free(#[trigger] doc[k]) by {
        if k == 0 {
            assert(doc[k] == "nodelist {"@);
        } else if k <= render_blocks(blocks).len() {
            assert(doc[k] == render_blocks(blocks)[k - 1]);
        } else {
            assert(doc[k] == "}"@);
        }
    }
    lemma_split_join(doc);
    lemma_parse_rendered(blocks);
}

/// The pairs of a node list, each field wrapped as present.
pub open spec fn complete_blocks(pairs: Seq<(Seq<char>, Seq<char>)>) -> Seq<
    (Option<Seq<char>>, Option<Seq<char>>),
> {
    pairs.map_values(|p: (Seq<char>, Seq<char>)| (Some(p.0), Some(p.1)))
}

/// Parsing a rendered descriptor whose blocks all carry both fields returns
/// exactly those pairs, in source order.
pub proof fn lemma_parser_round_trip(pairs: Seq<(Seq<char>, Seq<char>)>)
    requires
        forall|k: int|
            0 <= k < pairs.len() ==> good_field((#[trigger] pairs[k]).0) && good_field(pairs[k].1),
    ensures
        parse_nodes_spec(render_membership_text(complete_blocks(pairs))) == pairs,
{
    assert(good_blocks(complete_blocks(pairs)));
    lemma_membership_round_trip(complete_blocks(pairs));
    lemma_kept_complete(pairs);
}

/// Every pair survives rendering and re-parsing when all fields are present.
proof fn lemma_kept_complete(pairs: Seq<(Seq<char>, Seq<char>)>)
    ensures
        kept_blocks(complete_blocks(pairs)) == pairs,
    decreases pairs.len(),
{
    let blocks = complete_blocks(pairs);
    if pairs.len() == 0 {
        assert(kept_blocks(blocks) =~= pairs);
    } else {
        lemma_kept_complete(pairs.drop_first());
        assert(blocks.drop_first() =~= complete_blocks(pairs.drop_first()));
        assert(kept_block(blocks[0].0, blocks[0].1) == seq![(pairs[0].0, pairs[0].1)]);
        assert(seq![(pairs[0].0, pairs[0].1)] + pairs.drop_first() =~= pairs);
    }
}

} // verus!
