//! What the colored dump of a tree is: the plain dump with ANSI color codes around the
//! state symbols, and nothing else added.

use vstd::prelude::*;

use crate::dag::{Dag, Node, NodeKind, NodeState, direct_deps, lemma_first_index_exists, lookup, pid_index};
use crate::dump::{
    child_prefix, connector, dump_children, dump_node, dump_roots, dump_targets, dump_text, explain_text,
    marker_text, missing_line, node_line, state_color, state_text, suspended_text,
};
use crate::idgen::Handle;
use crate::resolve::{lemma_count_strict, lemma_push_superset, resolved, unvisited_count};
use crate::text::{decimal_int, decimal_nat, digit_char};

verus! {

/// Whether `s` holds no escape character.
pub open spec fn no_esc(s: Seq<char>) -> bool {
    forall|i: int| 0 <= i < s.len() ==> s[i] != '\x1b'
}

/// Whether `c` is a decimal digit.
pub open spec fn is_digit(c: char) -> bool {
    '0' <= c <= '9'
}

/// The index just after the `m` that ends a run of digits starting at `i`, or -1.
pub open spec fn digits_then_m(s: Seq<char>, i: int) -> int
    decreases s.len() - i,
{
    if i < 0 || i >= s.len() {
        -1
    } else if s[i] == 'm' {
        i + 1
    } else if is_digit(s[i]) {
        digits_then_m(s, i + 1)
    } else {
        -1
    }
}

/// The length of the color code `ESC [ digits m` that starts `s`, or -1 when `s` does
/// not start with one.
pub open spec fn code_end(s: Seq<char>) -> int {
    if s.len() >= 3 && s[0] == '\x1b' && s[1] == '[' && is_digit(s[2]) {
        digits_then_m(s, 3)
    } else {
        -1
    }
}

/// `s` with every ANSI color code `ESC [ digits m` deleted.
#[verifier::opaque]
pub open spec fn strip_ansi(s: Seq<char>) -> Seq<char>
    decreases s.len(),
{
    if s.len() == 0 {
        Seq::empty()
    } else {
        let e = code_end(s);
        if 0 < e <= s.len() {
            strip_ansi(s.subrange(e, s.len() as int))
        } else {
            seq![s[0]] + strip_ansi(s.drop_first())
        }
    }
}

proof fn lemma_strip_clean(a: Seq<char>, b: Seq<char>)
    requires
        no_esc(a),
    ensures
        strip_ansi(a + b) == a + strip_ansi(b),
    decreases a.len(),
{
    reveal(strip_ansi);
    if a.len() > 0 {
        let s = a + b;
        assert(s[0] == a[0]);
        assert(code_end(s) == -1);
        assert(s.drop_first() =~= a.drop_first() + b);
        lemma_strip_clean(a.drop_first(), b);
        assert(seq![a[0]] + (a.drop_first() + strip_ansi(b)) =~= a + strip_ansi(b));
    }
}

proof fn lemma_strip_code(c: Seq<char>, b: Seq<char>)
    requires
        c.len() >= 4,
        c[0] == '\x1b',
        c[1] == '[',
        forall|i: int| 2 <= i < c.len() - 1 ==> is_digit(#[trigger] c[i]),
        c[c.len() - 1] == 'm',
    ensures
        strip_ansi(c + b) == strip_ansi(b),
{
    reveal(strip_ansi);
    let s = c + b;
    lemma_digits_then_m(c, b, 3);
    assert(code_end(s) == c.len());
    assert(s.subrange(c.len() as int, s.len() as int) =~= b);
}

proof fn lemma_digits_then_m(c: Seq<char>, b: Seq<char>, i: int)
    requires
        c.len() >= 4,
        3 <= i < c.len(),
        forall|j: int| 2 <= j < c.len() - 1 ==> is_digit(#[trigger] c[j]),
        c[c.len() - 1] == 'm',
    ensures
        digits_then_m(c + b, i) == c.len(),
    decreases c.len() - i,
{
    let s = c + b;
    assert(s[i] == c[i]);
    if i < c.len() - 1 {
        assert(is_digit(c[i]));
        lemma_digits_then_m(c, b, i + 1);
    }
}

proof fn lemma_decimal_nat_clean(n: nat)
    ensures
        no_esc(decimal_nat(n)),
    decreases n,
{
    if n >= 10 {
        lemma_decimal_nat_clean(n / 10);
        let d = seq![digit_char(n % 10)];
        assert(no_esc(d));
        assert forall|i: int| 0 <= i < decimal_nat(n).len() implies decimal_nat(n)[i] != '\x1b' by {
            let a = decimal_nat(n / 10);
            if i < a.len() {
                assert(decimal_nat(n)[i] == a[i]);
            } else {
                assert(decimal_nat(n)[i] == d[i - a.len()]);
            }
        }
    }
}

proof fn lemma_decimal_int_clean(n: int)
    ensures
        no_esc(decimal_int(n)),
{
    if n < 0 {
        lemma_decimal_nat_clean((-n) as nat);
        let a = seq!['-'];
        let b = decimal_nat((-n) as nat);
        assert forall|i: int| 0 <= i < (a + b).len() implies (a + b)[i] != '\x1b' by {
            if i > 0 {
                assert((a + b)[i] == b[i - 1]);
            }
        }
    } else {
        lemma_decimal_nat_clean(n as nat);
    }
}

proof fn lemma_concat_clean(a: Seq<char>, b: Seq<char>)
    requires
        no_esc(a),
        no_esc(b),
    ensures
        no_esc(a + b),
{
    assert forall|i: int| 0 <= i < (a + b).len() implies (a + b)[i] != '\x1b' by {
        if i < a.len() {
            assert((a + b)[i] == a[i]);
        } else {
            assert((a + b)[i] == b[i - a.len()]);
        }
    }
}

/// The plain state text holds no escape, and the colored one is it inside a color code
/// and the reset code.
proof fn lemma_state_text(state: NodeState, exit_code: i32, b: Seq<char>)
    ensures
        no_esc(state_text(state, exit_code, false)),
        strip_ansi(state_text(state, exit_code, true) + b) == state_text(state, exit_code, false) + strip_ansi(b),
{
    reveal_strlit("⋯ pending");
    reveal_strlit("⚙ running");
    reveal_strlit("⏳ terminating");
    reveal_strlit("✓ built");
    reveal_strlit("✗ failed(");
    reveal_strlit(")");
    reveal_strlit("\x1b[0m");
    reveal_strlit("\x1b[33m");
    reveal_strlit("\x1b[35m");
    reveal_strlit("\x1b[32m");
    reveal_strlit("\x1b[31m");
    let plain = state_text(state, exit_code, false);
    if state == NodeState::Terminated && exit_code != 0 {
        lemma_decimal_int_clean(exit_code as int);
        assert(no_esc("✗ failed("@));
        assert(no_esc(")"@));
        lemma_concat_clean("✗ failed("@, decimal_int(exit_code as int));
        lemma_concat_clean("✗ failed("@ + decimal_int(exit_code as int), ")"@);
    } else {
        assert(no_esc(plain));
    }
    let color = state_color(state, exit_code);
    let reset = "\x1b[0m"@;
    assert(state_text(state, exit_code, true) == color + plain + reset);
    assert(color + plain + reset + b =~= color + (plain + (reset + b)));
    assert forall|i: int| 2 <= i < color.len() - 1 implies is_digit(#[trigger] color[i]) by {}
    lemma_strip_code(color, plain + (reset + b));
    lemma_strip_clean(plain, reset + b);
    assert forall|i: int| 2 <= i < reset.len() - 1 implies is_digit(#[trigger] reset[i]) by {}
    lemma_strip_code(reset, b);
}

proof fn lemma_line_head_clean(prefix: Seq<char>, n: Node, is_last: bool, is_root: bool)
    requires
        no_esc(prefix),
        no_esc(n.idname@),
    ensures
        no_esc(prefix + connector(is_last, is_root) + n.idname@ + "."@ + decimal_int(n.pid.spec_id() as int) + " ["@),
{
    reveal_strlit("└── ");
    reveal_strlit("├── ");
    reveal_strlit(".");
    reveal_strlit(" [");
    let con = connector(is_last, is_root);
    assert(no_esc(con));
    lemma_decimal_int_clean(n.pid.spec_id() as int);
    assert(no_esc("."@));
    assert(no_esc(" ["@));
    lemma_concat_clean(prefix, con);
    lemma_concat_clean(prefix + con, n.idname@);
    lemma_concat_clean(prefix + con + n.idname@, "."@);
    lemma_concat_clean(prefix + con + n.idname@ + "."@, decimal_int(n.pid.spec_id() as int));
    lemma_concat_clean(prefix + con + n.idname@ + "."@ + decimal_int(n.pid.spec_id() as int), " ["@);
}

proof fn lemma_line_tail_clean(n: Node, suspended: bool, circular: bool, already: bool)
    requires
        no_esc(explain_text(n.explain)),
    ensures
        no_esc(suspended_text(suspended) + "]"@ + explain_text(n.explain) + marker_text(circular, already) + "\n"@),
{
    reveal_strlit("]");
    reveal_strlit("\n");
    reveal_strlit(" ⏸ suspended");
    reveal_strlit(" [circular reference]");
    reveal_strlit(" [see above]");
    assert(no_esc(suspended_text(suspended)));
    assert(no_esc("]"@));
    assert(no_esc(marker_text(circular, already)));
    assert(no_esc("\n"@));
    lemma_concat_clean(suspended_text(suspended), "]"@);
    lemma_concat_clean(suspended_text(suspended) + "]"@, explain_text(n.explain));
    lemma_concat_clean(suspended_text(suspended) + "]"@ + explain_text(n.explain), marker_text(circular, already));
    lemma_concat_clean(suspended_text(suspended) + "]"@ + explain_text(n.explain) + marker_text(circular, already), "\n"@);
}

/// A node's colored line, stripped, is its plain line.
#[verifier::rlimit(60)]
proof fn lemma_node_line(
    prefix: Seq<char>,
    n: Node,
    is_last: bool,
    is_root: bool,
    suspended: bool,
    circular: bool,
    already: bool,
    b: Seq<char>,
)
    requires
        no_esc(prefix),
        no_esc(n.idname@),
        no_esc(explain_text(n.explain)),
    ensures
        strip_ansi(node_line(prefix, n, is_last, is_root, true, suspended, circular, already) + b) == node_line(
            prefix,
            n,
            is_last,
            is_root,
            false,
            suspended,
            circular,
            already,
        ) + strip_ansi(b),
{
    let a = prefix + connector(is_last, is_root) + n.idname@ + "."@ + decimal_int(n.pid.spec_id() as int) + " ["@;
    let st = state_text(n.state, n.exit_code, true);
    let sf = state_text(n.state, n.exit_code, false);
    let c = suspended_text(suspended) + "]"@ + explain_text(n.explain) + marker_text(circular, already) + "\n"@;
    lemma_line_head_clean(prefix, n, is_last, is_root);
    lemma_line_tail_clean(n, suspended, circular, already);
    assert(node_line(prefix, n, is_last, is_root, true, suspended, circular, already) + b =~= a + (st + (c + b)));
    assert(node_line(prefix, n, is_last, is_root, false, suspended, circular, already) =~= a + sf + c);
    lemma_strip_clean(a, st + (c + b));
    lemma_state_text(n.state, n.exit_code, c + b);
    lemma_strip_clean(c, b);
    assert(a + (sf + (c + strip_ansi(b))) =~= a + sf + c + strip_ansi(b));
}

/// Whether no node's name or explanation holds an escape character.
pub open spec fn names_clean(nodes: Seq<Node>) -> bool {
    forall|i: int| 0 <= i < nodes.len() ==> no_esc(#[trigger] nodes[i].idname@) && no_esc(explain_text(nodes[i].explain))
}

proof fn lemma_lookup_clean(nodes: Seq<Node>, pid: Handle)
    requires
        names_clean(nodes),
    ensures
        lookup(nodes, pid) matches Some(n) ==> no_esc(n.idname@) && no_esc(explain_text(n.explain)),
{
    if lookup(nodes, pid) is Some {
        lemma_first_index_exists(nodes, pid);
        let k = pid_index(nodes, pid);
        assert(no_esc(nodes[k].idname@));
    }
}

proof fn lemma_child_prefix_clean(prefix: Seq<char>, is_last: bool, is_root: bool)
    requires
        no_esc(prefix),
    ensures
        no_esc(child_prefix(prefix, is_last, is_root)),
{
    reveal_strlit("    ");
    reveal_strlit("│   ");
    assert(no_esc("    "@));
    assert(no_esc("│   "@));
    lemma_concat_clean(prefix, "    "@);
    lemma_concat_clean(prefix, "│   "@);
}

proof fn lemma_dump_node_strip(
    nodes: Seq<Node>,
    deps: Seq<(Handle, Handle)>,
    suspended: Option<Seq<Handle>>,
    pid: Handle,
    prefix: Seq<char>,
    is_last: bool,
    is_root: bool,
    visited: Seq<Handle>,
    printed: Seq<Handle>,
    b: Seq<char>,
)
    requires
        names_clean(nodes),
        no_esc(prefix),
    ensures
        ({
            let t = dump_node(nodes, deps, true, suspended, pid, prefix, is_last, is_root, visited, printed);
            let f = dump_node(nodes, deps, false, suspended, pid, prefix, is_last, is_root, visited, printed);
            &&& strip_ansi(t.0 + b) == f.0 + strip_ansi(b)
            &&& t.1 == f.1
        }),
    decreases unvisited_count(nodes, visited), 0nat, 0int,
{
    lemma_lookup_clean(nodes, pid);
    match lookup(nodes, pid) {
        None => {
            reveal_strlit("├── [PID ");
            reveal_strlit(" not found]\n");
            reveal_strlit("Handle { id: ");
            reveal_strlit(" }");
            lemma_decimal_int_clean(pid.spec_id() as int);
            assert(no_esc("├── [PID "@));
            assert(no_esc(" not found]\n"@));
            assert(no_esc("Handle { id: "@));
            assert(no_esc(" }"@));
            lemma_concat_clean("Handle { id: "@, decimal_int(pid.spec_id() as int));
            lemma_concat_clean("Handle { id: "@ + decimal_int(pid.spec_id() as int), " }"@);
            lemma_concat_clean(prefix, "├── [PID "@);
            lemma_concat_clean(prefix + "├── [PID "@, pid.debug_text());
            lemma_concat_clean(prefix + "├── [PID "@ + pid.debug_text(), " not found]\n"@);
            lemma_strip_clean(missing_line(prefix, pid), b);
        },
        Some(n) => {
            let circular = visited.contains(pid);
            let children = direct_deps(deps, pid);
            let already = printed.contains(pid) && children.len() > 0;
            let susp = crate::dump::is_suspended(suspended, pid);
            let lt = node_line(prefix, n, is_last, is_root, true, susp, circular, already);
            let lf = node_line(prefix, n, is_last, is_root, false, susp, circular, already);
            if circular || already || children.len() == 0 {
                lemma_node_line(prefix, n, is_last, is_root, susp, circular, already, b);
            } else {
                lemma_first_index_exists(nodes, pid);
                lemma_push_superset(visited, pid);
                lemma_count_strict(nodes, visited, visited.push(pid), pid_index(nodes, pid));
                let cp = child_prefix(prefix, is_last, is_root);
                lemma_child_prefix_clean(prefix, is_last, is_root);
                let rt = dump_children(nodes, deps, true, suspended, children, 0, cp, visited.push(pid), printed.push(pid));
                let rf = dump_children(nodes, deps, false, suspended, children, 0, cp, visited.push(pid), printed.push(pid));
                lemma_dump_children_strip(nodes, deps, suspended, children, 0, cp, visited.push(pid), printed.push(pid), b);
                lemma_node_line(prefix, n, is_last, is_root, susp, circular, already, rt.0 + b);
                assert(lt + rt.0 + b =~= lt + (rt.0 + b));
                assert(lf + (rf.0 + strip_ansi(b)) =~= lf + rf.0 + strip_ansi(b));
            }
        },
    }
}

proof fn lemma_dump_children_strip(
    nodes: Seq<Node>,
    deps: Seq<(Handle, Handle)>,
    suspended: Option<Seq<Handle>>,
    children: Seq<Handle>,
    idx: int,
    prefix: Seq<char>,
    visited: Seq<Handle>,
    printed: Seq<Handle>,
    b: Seq<char>,
)
    requires
        names_clean(nodes),
        no_esc(prefix),
    ensures
        ({
            let t = dump_children(nodes, deps, true, suspended, children, idx, prefix, visited, printed);
            let f = dump_children(nodes, deps, false, suspended, children, idx, prefix, visited, printed);
            &&& strip_ansi(t.0 + b) == f.0 + strip_ansi(b)
            &&& t.1 == f.1
        }),
    decreases unvisited_count(nodes, visited), 2nat, children.len() - idx,
{
    if idx < 0 || idx >= children.len() {
        assert(Seq::<char>::empty() + b =~= b);
        assert(Seq::<char>::empty() + strip_ansi(b) =~= strip_ansi(b));
    } else {
        let c = children[idx];
        let last = idx == children.len() - 1;
        let (ft, ff) = match lookup(nodes, c) {
            Some(cn) => if cn.kind == NodeKind::Alias {
                (
                    dump_targets(nodes, deps, true, suspended, direct_deps(deps, c), 0, last, prefix, visited, printed),
                    dump_targets(nodes, deps, false, suspended, direct_deps(deps, c), 0, last, prefix, visited, printed),
                )
            } else {
                (
                    dump_node(nodes, deps, true, suspended, c, prefix, last, false, visited, printed),
                    dump_node(nodes, deps, false, suspended, c, prefix, last, false, visited, printed),
                )
            },
            None => (
                dump_node(nodes, deps, true, suspended, c, prefix, last, false, visited, printed),
                dump_node(nodes, deps, false, suspended, c, prefix, last, false, visited, printed),
            ),
        };
        let rt = dump_children(nodes, deps, true, suspended, children, idx + 1, prefix, visited, ft.1);
        let rf = dump_children(nodes, deps, false, suspended, children, idx + 1, prefix, visited, ff.1);
        match lookup(nodes, c) {
            Some(cn) => if cn.kind == NodeKind::Alias {
                lemma_dump_targets_strip(nodes, deps, suspended, direct_deps(deps, c), 0, last, prefix, visited, printed, rt.0 + b);
            } else {
                lemma_dump_node_strip(nodes, deps, suspended, c, prefix, last, false, visited, printed, rt.0 + b);
            },
            None => {
                lemma_dump_node_strip(nodes, deps, suspended, c, prefix, last, false, visited, printed, rt.0 + b);
            },
        }
        lemma_dump_children_strip(nodes, deps, suspended, children, idx + 1, prefix, visited, ft.1, b);
        assert(ft.0 + rt.0 + b =~= ft.0 + (rt.0 + b));
        assert(ff.0 + (rf.0 + strip_ansi(b)) =~= ff.0 + rf.0 + strip_ansi(b));
    }
}

proof fn lemma_dump_targets_strip(
    nodes: Seq<Node>,
    deps: Seq<(Handle, Handle)>,
    suspended: Option<Seq<Handle>>,
    targets: Seq<Handle>,
    t: int,
    last_child: bool,
    prefix: Seq<char>,
    visited: Seq<Handle>,
    printed: Seq<Handle>,
    b: Seq<char>,
)
    requires
        names_clean(nodes),
        no_esc(prefix),
    ensures
        ({
            let x = dump_targets(nodes, deps, true, suspended, targets, t, last_child, prefix, visited, printed);
            let y = dump_targets(nodes, deps, false, suspended, targets, t, last_child, prefix, visited, printed);
            &&& strip_ansi(x.0 + b) == y.0 + strip_ansi(b)
            &&& x.1 == y.1
        }),
    decreases unvisited_count(nodes, visited), 1nat, targets.len() - t,
{
    if t < 0 || t >= targets.len() {
        assert(Seq::<char>::empty() + b =~= b);
        assert(Seq::<char>::empty() + strip_ansi(b) =~= strip_ansi(b));
    } else {
        let last = t == targets.len() - 1 && last_child;
        let ft = dump_node(nodes, deps, true, suspended, targets[t], prefix, last, false, visited, printed);
        let ff = dump_node(nodes, deps, false, suspended, targets[t], prefix, last, false, visited, printed);
        let rt = dump_targets(nodes, deps, true, suspended, targets, t + 1, last_child, prefix, visited, ft.1);
        let rf = dump_targets(nodes, deps, false, suspended, targets, t + 1, last_child, prefix, visited, ff.1);
        lemma_dump_node_strip(nodes, deps, suspended, targets[t], prefix, last, false, visited, printed, rt.0 + b);
        lemma_dump_targets_strip(nodes, deps, suspended, targets, t + 1, last_child, prefix, visited, ft.1, b);
        assert(ft.0 + rt.0 + b =~= ft.0 + (rt.0 + b));
        assert(ff.0 + (rf.0 + strip_ansi(b)) =~= ff.0 + rf.0 + strip_ansi(b));
    }
}

proof fn lemma_dump_roots_strip(
    nodes: Seq<Node>,
    deps: Seq<(Handle, Handle)>,
    suspended: Option<Seq<Handle>>,
    roots: Seq<Handle>,
    idx: int,
    printed: Seq<Handle>,
    b: Seq<char>,
)
    requires
        names_clean(nodes),
    ensures
        strip_ansi(dump_roots(nodes, deps, true, suspended, roots, idx, printed) + b) == dump_roots(
            nodes,
            deps,
            false,
            suspended,
            roots,
            idx,
            printed,
        ) + strip_ansi(b),
    decreases roots.len() - idx,
{
    if idx < 0 || idx >= roots.len() {
        assert(Seq::<char>::empty() + b =~= b);
        assert(Seq::<char>::empty() + strip_ansi(b) =~= strip_ansi(b));
    } else {
        let last = idx == roots.len() - 1;
        let ft = dump_node(nodes, deps, true, suspended, roots[idx], Seq::empty(), last, true, Seq::empty(), printed);
        let ff = dump_node(nodes, deps, false, suspended, roots[idx], Seq::empty(), last, true, Seq::empty(), printed);
        let rt = dump_roots(nodes, deps, true, suspended, roots, idx + 1, ft.1);
        let rf = dump_roots(nodes, deps, false, suspended, roots, idx + 1, ff.1);
        assert(no_esc(Seq::<char>::empty()));
        lemma_dump_node_strip(nodes, deps, suspended, roots[idx], Seq::empty(), last, true, Seq::empty(), printed, rt + b);
        lemma_dump_roots_strip(nodes, deps, suspended, roots, idx + 1, ft.1, b);
        assert(ft.0 + rt + b =~= ft.0 + (rt + b));
        assert(ff.0 + (rf + strip_ansi(b)) =~= ff.0 + rf + strip_ansi(b));
    }
}

/// Law: where no node's name or explanation holds an escape character, the colored dump
/// with its ANSI color codes deleted is the plain dump: colors only wrap the state
/// symbols, and the tree and all other text are the same.
pub proof fn lemma_dump_colored_strips(dag: Dag, pid: Handle, suspended: Option<Seq<Handle>>)
    requires
        names_clean(dag.nodes()),
    ensures
        strip_ansi(dump_text(dag, pid, true, suspended)) == dump_text(dag, pid, false, suspended),
{
    let e = Seq::<char>::empty();
    assert(strip_ansi(e) == e) by {
        reveal(strip_ansi);
    }
    assert(no_esc(e));
    let t = dump_text(dag, pid, true, suspended);
    let f = dump_text(dag, pid, false, suspended);
    match dag.node(pid) {
        Some(n) => if n.kind == NodeKind::Alias {
            lemma_dump_roots_strip(dag.nodes(), dag.deps(), suspended, resolved(dag, pid), 0, Seq::empty(), e);
        } else {
            lemma_dump_node_strip(dag.nodes(), dag.deps(), suspended, pid, e, true, true, Seq::empty(), Seq::empty(), e);
        },
        None => {
            lemma_dump_node_strip(dag.nodes(), dag.deps(), suspended, pid, e, true, true, Seq::empty(), Seq::empty(), e);
        },
    }
    assert(t + e =~= t);
    assert(f + e =~= f);
}

} // verus!
