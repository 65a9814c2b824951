//! Text rendering of the dependency tree below a node.
//!
//! Each node is one line: its name, its handle id and its state in brackets, then its
//! explanation. Children are drawn with tree connectors; an alias among the children is
//! replaced by its own direct dependencies. A node met again on the current path is marked
//! as a circular reference, and a node whose subtree was already drawn is marked
//! "see above" and not expanded twice.

use vstd::prelude::*;
use vstd::string::StringExecFns;

use crate::dag::{Dag, Node, NodeKind, NodeState, direct_deps, lemma_first_index_exists, lookup, pid_index};
use crate::idgen::Handle;
use crate::resolve::{contains_handle, lemma_count_strict, lemma_push_superset, resolved, unvisited_count};
use crate::text::{decimal_int, push_decimal_i64};

verus! {

broadcast use Handle::lemma_handle_ext;

/// The text that shows a node's state, with ANSI colors when `colors` is set.
pub open spec fn state_text(state: NodeState, exit_code: i32, colors: bool) -> Seq<char> {
    let plain = match state {
        NodeState::NotStarted => "⋯ pending"@,
        NodeState::Running => "⚙ running"@,
        NodeState::Terminating => "⏳ terminating"@,
        NodeState::Terminated => if exit_code == 0 {
            "✓ built"@
        } else {
            "✗ failed("@ + decimal_int(exit_code as int) + ")"@
        },
    };
    if colors {
        state_color(state, exit_code) + plain + "\x1b[0m"@
    } else {
        plain
    }
}

/// The ANSI color that introduces a state: yellow while pending, magenta while running or
/// terminating, green when built and red when failed.
pub open spec fn state_color(state: NodeState, exit_code: i32) -> Seq<char> {
    match state {
        NodeState::NotStarted => "\x1b[33m"@,
        NodeState::Running => "\x1b[35m"@,
        NodeState::Terminating => "\x1b[35m"@,
        NodeState::Terminated => if exit_code == 0 {
            "\x1b[32m"@
        } else {
            "\x1b[31m"@
        },
    }
}

/// Whether `pid` is among the suspended handles, when they are given.
pub open spec fn is_suspended(suspended: Option<Seq<Handle>>, pid: Handle) -> bool {
    suspended matches Some(s) && s.contains(pid)
}

/// The connector drawn before a node: none for a root, a corner for a last child and a
/// tee otherwise.
pub open spec fn connector(is_last: bool, is_root: bool) -> Seq<char> {
    if is_root {
        Seq::empty()
    } else if is_last {
        "└── "@
    } else {
        "├── "@
    }
}

/// The mark of a suspended node.
pub open spec fn suspended_text(suspended: bool) -> Seq<char> {
    if suspended {
        " ⏸ suspended"@
    } else {
        Seq::empty()
    }
}

/// The explanation of a node, after a `#`.
pub open spec fn explain_text(explain: Option<String>) -> Seq<char> {
    match explain {
        Some(e) => " # "@ + e@,
        None => Seq::empty(),
    }
}

/// The mark of a node met again on the current path, or drawn before with its subtree.
pub open spec fn marker_text(circular: bool, already_printed: bool) -> Seq<char> {
    if circular {
        " [circular reference]"@
    } else if already_printed {
        " [see above]"@
    } else {
        Seq::empty()
    }
}

/// The line that shows node `n`.
pub open spec fn node_line(
    prefix: Seq<char>,
    n: Node,
    is_last: bool,
    is_root: bool,
    colors: bool,
    suspended: bool,
    circular: bool,
    already_printed: bool,
) -> Seq<char> {
    prefix + connector(is_last, is_root) + n.idname@ + "."@ + decimal_int(n.pid.spec_id() as int) + " ["@
        + state_text(n.state, n.exit_code, colors) + suspended_text(suspended) + "]"@ + explain_text(n.explain)
        + marker_text(circular, already_printed) + "\n"@
}

/// The line for a handle that has no node.
pub open spec fn missing_line(prefix: Seq<char>, pid: Handle) -> Seq<char> {
    prefix + "├── [PID "@ + pid.debug_text() + " not found]\n"@
}

/// The prefix of the children's lines.
pub open spec fn child_prefix(prefix: Seq<char>, is_last: bool, is_root: bool) -> Seq<char> {
    if is_root {
        Seq::empty()
    } else if is_last {
        prefix + "    "@
    } else {
        prefix + "│   "@
    }
}

/// The text drawn for `pid` and below it, and the handles whose subtrees are drawn
/// afterwards. `visited` holds the handles on the current path, `printed` those whose
/// subtrees were drawn before.
pub open spec fn dump_node(
    nodes: Seq<Node>,
    deps: Seq<(Handle, Handle)>,
    colors: bool,
    suspended: Option<Seq<Handle>>,
    pid: Handle,
    prefix: Seq<char>,
    is_last: bool,
    is_root: bool,
    visited: Seq<Handle>,
    printed: Seq<Handle>,
) -> (Seq<char>, Seq<Handle>)
    decreases unvisited_count(nodes, visited), 0nat, 0int,
{
    match lookup(nodes, pid) {
        None => (missing_line(prefix, pid), printed),
        Some(n) => {
            let circular = visited.contains(pid);
            let children = direct_deps(deps, pid);
            let already = printed.contains(pid) && children.len() > 0;
            let line = node_line(
                prefix,
                n,
                is_last,
                is_root,
                colors,
                is_suspended(suspended, pid),
                circular,
                already,
            );
            if circular || already || children.len() == 0 {
                (line, printed)
            } else {
                proof {
                    lemma_first_index_exists(nodes, pid);
                    lemma_push_superset(visited, pid);
                    lemma_count_strict(nodes, visited, visited.push(pid), pid_index(nodes, pid));
                }
                let r = dump_children(
                    nodes,
                    deps,
                    colors,
                    suspended,
                    children,
                    0,
                    child_prefix(prefix, is_last, is_root),
                    visited.push(pid),
                    printed.push(pid),
                );
                (line + r.0, r.1)
            }
        },
    }
}

/// The text drawn for the children from index `idx` on.
pub open spec fn dump_children(
    nodes: Seq<Node>,
    deps: Seq<(Handle, Handle)>,
    colors: bool,
    suspended: Option<Seq<Handle>>,
    children: Seq<Handle>,
    idx: int,
    prefix: Seq<char>,
    visited: Seq<Handle>,
    printed: Seq<Handle>,
) -> (Seq<char>, Seq<Handle>)
    decreases unvisited_count(nodes, visited), 2nat, children.len() - idx,
{
    if idx < 0 || idx >= children.len() {
        (Seq::empty(), printed)
    } else {
        let c = children[idx];
        let last = idx == children.len() - 1;
        let first = match lookup(nodes, c) {
            Some(cn) => if cn.kind == NodeKind::Alias {
                dump_targets(nodes, deps, colors, suspended, direct_deps(deps, c), 0, last, prefix, visited, printed)
            } else {
                dump_node(nodes, deps, colors, suspended, c, prefix, last, false, visited, printed)
            },
            None => dump_node(nodes, deps, colors, suspended, c, prefix, last, false, visited, printed),
        };
        let rest = dump_children(nodes, deps, colors, suspended, children, idx + 1, prefix, visited, first.1);
        (first.0 + rest.0, rest.1)
    }
}

/// The text drawn for the targets of an alias child, from index `t` on.
pub open spec fn dump_targets(
    nodes: Seq<Node>,
    deps: Seq<(Handle, Handle)>,
    colors: bool,
    suspended: Option<Seq<Handle>>,
    targets: Seq<Handle>,
    t: int,
    last_child: bool,
    prefix: Seq<char>,
    visited: Seq<Handle>,
    printed: Seq<Handle>,
) -> (Seq<char>, Seq<Handle>)
    decreases unvisited_count(nodes, visited), 1nat, targets.len() - t,
{
    if t < 0 || t >= targets.len() {
        (Seq::empty(), printed)
    } else {
        let last = t == targets.len() - 1 && last_child;
        let first = dump_node(nodes, deps, colors, suspended, targets[t], prefix, last, false, visited, printed);
        let rest = dump_targets(nodes, deps, colors, suspended, targets, t + 1, last_child, prefix, visited, first.1);
        (first.0 + rest.0, rest.1)
    }
}

/// The text drawn for the roots from index `idx` on, each a root of its own tree.
pub open spec fn dump_roots(
    nodes: Seq<Node>,
    deps: Seq<(Handle, Handle)>,
    colors: bool,
    suspended: Option<Seq<Handle>>,
    roots: Seq<Handle>,
    idx: int,
    printed: Seq<Handle>,
) -> Seq<char>
    decreases roots.len() - idx,
{
    if idx < 0 || idx >= roots.len() {
        Seq::empty()
    } else {
        let first = dump_node(
            nodes,
            deps,
            colors,
            suspended,
            roots[idx],
            Seq::empty(),
            idx == roots.len() - 1,
            true,
            Seq::empty(),
            printed,
        );
        first.0 + dump_roots(nodes, deps, colors, suspended, roots, idx + 1, first.1)
    }
}

/// The whole text for `pid`: its tree, or, when `pid` is an alias, the trees of the
/// concrete nodes it resolves to.
pub open spec fn dump_text(dag: Dag, pid: Handle, colors: bool, suspended: Option<Seq<Handle>>) -> Seq<char> {
    match dag.node(pid) {
        Some(n) => if n.kind == NodeKind::Alias {
            dump_roots(dag.nodes(), dag.deps(), colors, suspended, resolved(dag, pid), 0, Seq::empty())
        } else {
            dump_node(dag.nodes(), dag.deps(), colors, suspended, pid, Seq::empty(), true, true, Seq::empty(), Seq::empty()).0
        },
        None => dump_node(dag.nodes(), dag.deps(), colors, suspended, pid, Seq::empty(), true, true, Seq::empty(), Seq::empty()).0,
    }
}

/// The suspended handles as a sequence, when given.
pub open spec fn suspended_view(suspended: Option<&Vec<Handle>>) -> Option<Seq<Handle>> {
    match suspended {
        Some(v) => Some(v@),
        None => None,
    }
}

fn append_connector(out: &mut String, is_last: bool, is_root: bool)
    ensures
        final(out)@ == old(out)@ + connector(is_last, is_root),
{
    if !is_root {
        if is_last {
            out.append("└── ");
        } else {
            out.append("├── ");
        }
    } else {
        assert(out@ =~= out@ + Seq::<char>::empty());
    }
}

fn append_suspended(out: &mut String, suspended: bool)
    ensures
        final(out)@ == old(out)@ + suspended_text(suspended),
{
    if suspended {
        out.append(" ⏸ suspended");
    } else {
        assert(out@ =~= out@ + Seq::<char>::empty());
    }
}

fn append_explain(out: &mut String, explain: &Option<String>)
    ensures
        final(out)@ == old(out)@ + explain_text(*explain),
{
    match explain {
        Some(e) => {
            let ghost o0 = out@;
            out.append(" # ");
            out.append(e.as_str());
            assert(out@ =~= o0 + (" # "@ + e@));
        },
        None => {
            assert(out@ =~= out@ + Seq::<char>::empty());
        },
    }
}

fn append_marker(out: &mut String, circular: bool, already_printed: bool)
    ensures
        final(out)@ == old(out)@ + marker_text(circular, already_printed),
{
    if circular {
        out.append(" [circular reference]");
    } else if already_printed {
        out.append(" [see above]");
    } else {
        assert(out@ =~= out@ + Seq::<char>::empty());
    }
}

impl Dag {
    /// The dependency tree of `pid` as text, without colors. If `pid` is an alias, the
    /// trees of the concrete nodes it resolves to are drawn instead, each as a root.
    /// Nodes among `suspended` are marked as suspended.
    pub fn dump(&self, pid: Handle, suspended: Option<&Vec<Handle>>) -> (r: String)
        ensures
            r@ == dump_text(*self, pid, false, suspended_view(suspended)),
    {
        self.dump_impl(pid, false, suspended)
    }

    /// The dependency tree of `pid` as text, with ANSI colors.
    pub fn dump_colored(&self, pid: Handle, suspended: Option<&Vec<Handle>>) -> (r: String)
        ensures
            r@ == dump_text(*self, pid, true, suspended_view(suspended)),
    {
        self.dump_impl(pid, true, suspended)
    }

    fn dump_impl(&self, pid: Handle, colors: bool, suspended: Option<&Vec<Handle>>) -> (r: String)
        ensures
            r@ == dump_text(*self, pid, colors, suspended_view(suspended)),
    {
        let ghost nodes = self.nodes();
        let ghost deps = self.deps();
        let ghost susp = suspended_view(suspended);
        let mut out = String::new();
        let mut visited: Vec<Handle> = Vec::new();
        let mut printed: Vec<Handle> = Vec::new();
        let is_alias = match self.get_node(pid) {
            Some(node) => node.kind == NodeKind::Alias,
            None => false,
        };
        if is_alias {
            let roots = self.collect_resolved(pid);
            let ghost whole = dump_roots(nodes, deps, colors, susp, roots@, 0, Seq::empty());
            let mut idx: usize = 0;
            while idx < roots.len()
                invariant
                    nodes == self.nodes(),
                    deps == self.deps(),
                    susp == suspended_view(suspended),
                    idx <= roots@.len(),
                    visited@ == Seq::<Handle>::empty(),
                    out@ + dump_roots(nodes, deps, colors, susp, roots@, idx as int, printed@) == whole,
                decreases roots@.len() - idx,
            {
                let ghost before = out@;
                let ghost p0 = printed@;
                let is_last = idx == roots.len() - 1;
                self.dump_recursive(roots[idx], "", is_last, true, colors, suspended, &mut out, &mut visited, &mut printed);
                proof {
                    let first = dump_node(nodes, deps, colors, susp, roots@[idx as int], Seq::empty(), is_last, true, Seq::empty(), p0);
                    assert(""@ == Seq::<char>::empty()) by { reveal_strlit(""); }
                    assert(before + (first.0 + dump_roots(nodes, deps, colors, susp, roots@, idx + 1, first.1))
                        =~= out@ + dump_roots(nodes, deps, colors, susp, roots@, idx + 1, printed@));
                }
                idx = idx + 1;
            }
            assert(out@ =~= out@ + dump_roots(nodes, deps, colors, susp, roots@, idx as int, printed@));
            out
        } else {
            proof { reveal_strlit(""); }
            self.dump_recursive(pid, "", true, true, colors, suspended, &mut out, &mut visited, &mut printed);
            assert(out@ =~= dump_node(nodes, deps, colors, susp, pid, Seq::empty(), true, true, Seq::empty(), Seq::empty()).0);
            out
        }
    }

    /// The text that shows a node's state inside the brackets of its line.
    pub fn format_state_symbol(state: NodeState, exit_code: i32, colors: bool) -> (r: String)
        ensures
            r@ == state_text(state, exit_code, colors),
    {
        let mut s = String::new();
        if colors {
            match state {
                NodeState::NotStarted => s.append("\x1b[33m"),
                NodeState::Running => s.append("\x1b[35m"),
                NodeState::Terminating => s.append("\x1b[35m"),
                NodeState::Terminated => if exit_code == 0 {
                    s.append("\x1b[32m")
                } else {
                    s.append("\x1b[31m")
                },
            }
        }
        let ghost lead = s@;
        match state {
            NodeState::NotStarted => s.append("⋯ pending"),
            NodeState::Running => s.append("⚙ running"),
            NodeState::Terminating => s.append("⏳ terminating"),
            NodeState::Terminated => if exit_code == 0 {
                s.append("✓ built")
            } else {
                s.append("✗ failed(");
                push_decimal_i64(&mut s, exit_code as i64);
                s.append(")");
            },
        }
        if colors {
            s.append("\x1b[0m");
        }
        assert(s@ =~= state_text(state, exit_code, colors));
        s
    }

    /// Appends the line that shows `node` to `out`.
    fn write_node_line(
        out: &mut String,
        prefix: &str,
        node: &Node,
        is_last: bool,
        is_root: bool,
        colors: bool,
        suspended: bool,
        circular: bool,
        already_printed: bool,
    )
        ensures
            final(out)@ == old(out)@ + node_line(
                prefix@,
                *node,
                is_last,
                is_root,
                colors,
                suspended,
                circular,
                already_printed,
            ),
    {
        let ghost o0 = out@;
        out.append(prefix);
        append_connector(out, is_last, is_root);
        let ghost a1 = prefix@ + connector(is_last, is_root);
        assert(out@ =~= o0 + a1);
        out.append(node.idname.as_str());
        out.append(".");
        let ghost a2 = a1 + node.idname@ + "."@;
        assert(out@ =~= o0 + a2);
        push_decimal_i64(out, node.pid.id());
        out.append(" [");
        let ghost a3 = a2 + decimal_int(node.pid.spec_id() as int) + " ["@;
        assert(out@ =~= o0 + a3);
        let state = Self::format_state_symbol(node.state, node.exit_code, colors);
        out.append(state.as_str());
        append_suspended(out, suspended);
        out.append("]");
        let ghost a4 = a3 + state_text(node.state, node.exit_code, colors) + suspended_text(suspended) + "]"@;
        assert(out@ =~= o0 + a4);
        append_explain(out, &node.explain);
        append_marker(out, circular, already_printed);
        out.append("\n");
        let ghost a5 = a4 + explain_text(node.explain) + marker_text(circular, already_printed) + "\n"@;
        assert(out@ =~= o0 + a5);
    }

    /// Appends the text for `pid` and below it to `out`. `visited` holds the handles on the
    /// current path and is the same on return; `printed` gains the handles whose subtrees
    /// were drawn.
    #[verifier::rlimit(40)]
    fn dump_recursive(
        &self,
        pid: Handle,
        prefix: &str,
        is_last: bool,
        is_root: bool,
        colors: bool,
        suspended: Option<&Vec<Handle>>,
        out: &mut String,
        visited: &mut Vec<Handle>,
        printed: &mut Vec<Handle>,
    )
        ensures
            ({
                let r = dump_node(
                    self.nodes(),
                    self.deps(),
                    colors,
                    suspended_view(suspended),
                    pid,
                    prefix@,
                    is_last,
                    is_root,
                    old(visited)@,
                    old(printed)@,
                );
                &&& final(out)@ == old(out)@ + r.0
                &&& final(printed)@ == r.1
                &&& final(visited)@ == old(visited)@
            }),
        decreases unvisited_count(self.nodes(), old(visited)@),
    {
        let ghost nodes = self.nodes();
        let ghost deps = self.deps();
        let ghost susp = suspended_view(suspended);
        let ghost v0 = visited@;
        let ghost p0 = printed@;
        let ghost o0 = out@;
        let node = match self.get_node(pid) {
            Some(n) => n,
            None => {
                out.append(prefix);
                out.append("├── [PID ");
                let dbg = pid.to_debug_string();
                out.append(dbg.as_str());
                out.append(" not found]\n");
                assert(out@ =~= o0 + missing_line(prefix@, pid));
                return;
            },
        };
        let circular = contains_handle(visited, pid);
        let children = self.get_direct_dependencies(pid);
        let already_printed = contains_handle(printed, pid) && children.len() > 0;
        let suspended_here = match suspended {
            Some(s) => contains_handle(s, pid),
            None => false,
        };
        Self::write_node_line(out, prefix, node, is_last, is_root, colors, suspended_here, circular, already_printed);
        let ghost line = node_line(prefix@, *node, is_last, is_root, colors, suspended_here, circular, already_printed);
        if circular || already_printed || children.len() == 0 {
            return;
        }
        proof {
            lemma_first_index_exists(nodes, pid);
            lemma_push_superset(v0, pid);
            lemma_count_strict(nodes, v0, v0.push(pid), pid_index(nodes, pid));
        }
        visited.push(pid);
        printed.push(pid);
        let mut cp = String::new();
        if !is_root {
            cp.append(prefix);
            if is_last {
                cp.append("    ");
            } else {
                cp.append("│   ");
            }
        }
        assert(cp@ =~= child_prefix(prefix@, is_last, is_root));
        let ghost vis1 = visited@;
        let ghost whole = dump_children(nodes, deps, colors, susp, children@, 0, cp@, vis1, printed@);
        let ghost line_out = out@;
        let mut idx: usize = 0;
        while idx < children.len()
            invariant
                nodes == self.nodes(),
                deps == self.deps(),
                susp == suspended_view(suspended),
                vis1 == v0.push(pid),
                v0 == old(visited)@,
                visited@ == vis1,
                unvisited_count(nodes, vis1) < unvisited_count(nodes, v0),
                idx <= children@.len(),
                out@ + dump_children(nodes, deps, colors, susp, children@, idx as int, cp@, vis1, printed@).0
                    == line_out + whole.0,
                dump_children(nodes, deps, colors, susp, children@, idx as int, cp@, vis1, printed@).1 == whole.1,
            decreases children@.len() - idx,
        {
            let ghost o1 = out@;
            let ghost p1 = printed@;
            let c = children[idx];
            let last_child = idx == children.len() - 1;
            let child_is_alias = match self.get_node(c) {
                Some(cn) => cn.kind == NodeKind::Alias,
                None => false,
            };
            if child_is_alias {
                let targets = self.get_direct_dependencies(c);
                let ghost tw = dump_targets(nodes, deps, colors, susp, targets@, 0, last_child, cp@, vis1, p1);
                let mut t: usize = 0;
                while t < targets.len()
                    invariant
                        nodes == self.nodes(),
                        deps == self.deps(),
                        susp == suspended_view(suspended),
                        visited@ == vis1,
                        v0 == old(visited)@,
                        unvisited_count(nodes, vis1) < unvisited_count(nodes, v0),
                        t <= targets@.len(),
                        out@ + dump_targets(nodes, deps, colors, susp, targets@, t as int, last_child, cp@, vis1, printed@).0
                            == o1 + tw.0,
                        dump_targets(nodes, deps, colors, susp, targets@, t as int, last_child, cp@, vis1, printed@).1 == tw.1,
                    decreases targets@.len() - t,
                {
                    let ghost o2 = out@;
                    let ghost p2 = printed@;
                    let last_target = t == targets.len() - 1 && last_child;
                    self.dump_recursive(targets[t], cp.as_str(), last_target, false, colors, suspended, out, visited, printed);
                    proof {
                        let first = dump_node(nodes, deps, colors, susp, targets@[t as int], cp@, last_target, false, vis1, p2);
                        let rest = dump_targets(nodes, deps, colors, susp, targets@, t + 1, last_child, cp@, vis1, first.1);
                        assert(o2 + (first.0 + rest.0) =~= out@ + rest.0);
                    }
                    t = t + 1;
                }
                proof {
                    assert(out@ =~= o1 + tw.0);
                    let rest = dump_children(nodes, deps, colors, susp, children@, idx + 1, cp@, vis1, tw.1);
                    assert(o1 + (tw.0 + rest.0) =~= out@ + rest.0);
                }
            } else {
                self.dump_recursive(c, cp.as_str(), last_child, false, colors, suspended, out, visited, printed);
                proof {
                    let first = dump_node(nodes, deps, colors, susp, c, cp@, last_child, false, vis1, p1);
                    let rest = dump_children(nodes, deps, colors, susp, children@, idx + 1, cp@, vis1, first.1);
                    assert(o1 + (first.0 + rest.0) =~= out@ + rest.0);
                }
            }
            idx = idx + 1;
        }
        assert(out@ =~= line_out + whole.0);
        visited.pop();
        assert(visited@ =~= v0);
    }
}

} // verus!
