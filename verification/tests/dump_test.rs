use ailets::dag::{Dag, DependsOn, For, NodeKind, NodeState};
use ailets::idgen::{Handle, IdGen};

fn dag() -> Dag {
    Dag::new(IdGen::new())
}

#[test]
fn dump_single_node() {
    let mut d = dag();
    let a = d.add_node("a".to_string(), NodeKind::Concrete);
    assert_eq!(d.dump(a, None), "a.1 [⋯ pending]\n");
}

#[test]
fn dump_chain_uses_corner_connectors() {
    let mut d = dag();
    let a = d.add_node("a".to_string(), NodeKind::Concrete);
    let b = d.add_node("b".to_string(), NodeKind::Concrete);
    let c = d.add_node("c".to_string(), NodeKind::Concrete);
    d.add_dependency(For(a), DependsOn(b));
    d.add_dependency(For(b), DependsOn(c));
    assert_eq!(d.dump(a, None), "a.1 [⋯ pending]\n└── b.2 [⋯ pending]\n    └── c.3 [⋯ pending]\n");
}

#[test]
fn dump_siblings_use_tee_and_bar() {
    let mut d = dag();
    let a = d.add_node("a".to_string(), NodeKind::Concrete);
    let b = d.add_node("b".to_string(), NodeKind::Concrete);
    let c = d.add_node("c".to_string(), NodeKind::Concrete);
    let e = d.add_node("e".to_string(), NodeKind::Concrete);
    let f = d.add_node("f".to_string(), NodeKind::Concrete);
    d.add_dependency(For(a), DependsOn(b));
    d.add_dependency(For(a), DependsOn(c));
    d.add_dependency(For(b), DependsOn(e));
    d.add_dependency(For(e), DependsOn(f));
    assert_eq!(
        d.dump(a, None),
        "a.1 [⋯ pending]\n├── b.2 [⋯ pending]\n│   └── e.4 [⋯ pending]\n│       └── f.5 [⋯ pending]\n└── c.3 [⋯ pending]\n"
    );
}

#[test]
fn dump_marks_circular_reference() {
    let mut d = dag();
    let a = d.add_node("a".to_string(), NodeKind::Concrete);
    let b = d.add_node("b".to_string(), NodeKind::Concrete);
    d.add_dependency(For(a), DependsOn(b));
    d.add_dependency(For(b), DependsOn(a));
    assert_eq!(
        d.dump(a, None),
        "a.1 [⋯ pending]\n└── b.2 [⋯ pending]\n    └── a.1 [⋯ pending] [circular reference]\n"
    );
}

#[test]
fn dump_expands_shared_subtree_once() {
    let mut d = dag();
    let a = d.add_node("a".to_string(), NodeKind::Concrete);
    let b = d.add_node("b".to_string(), NodeKind::Concrete);
    let c = d.add_node("c".to_string(), NodeKind::Concrete);
    let s = d.add_node("s".to_string(), NodeKind::Concrete);
    let t = d.add_node("t".to_string(), NodeKind::Concrete);
    d.add_dependency(For(a), DependsOn(b));
    d.add_dependency(For(a), DependsOn(c));
    d.add_dependency(For(b), DependsOn(s));
    d.add_dependency(For(c), DependsOn(s));
    d.add_dependency(For(s), DependsOn(t));
    assert_eq!(
        d.dump(a, None),
        "a.1 [⋯ pending]\n├── b.2 [⋯ pending]\n│   └── s.4 [⋯ pending]\n│       └── t.5 [⋯ pending]\n└── c.3 [⋯ pending]\n    └── s.4 [⋯ pending] [see above]\n"
    );
}

#[test]
fn dump_reports_missing_node() {
    let mut d = dag();
    let a = d.add_node("a".to_string(), NodeKind::Concrete);
    d.add_dependency(For(a), DependsOn(Handle::new(99)));
    assert_eq!(d.dump(a, None), "a.1 [⋯ pending]\n├── [PID Handle { id: 99 } not found]\n");
    assert_eq!(d.dump(Handle::new(7), None), "├── [PID Handle { id: 7 } not found]\n");
}

#[test]
fn dump_expands_alias_children_into_targets() {
    let mut d = dag();
    let a = d.add_node("a".to_string(), NodeKind::Concrete);
    let x = d.add_node("x".to_string(), NodeKind::Alias);
    let b = d.add_node("b".to_string(), NodeKind::Concrete);
    let c = d.add_node("c".to_string(), NodeKind::Concrete);
    d.add_dependency(For(a), DependsOn(x));
    d.add_dependency(For(x), DependsOn(b));
    d.add_dependency(For(x), DependsOn(c));
    assert_eq!(d.dump(a, None), "a.1 [⋯ pending]\n├── b.3 [⋯ pending]\n└── c.4 [⋯ pending]\n");
}

#[test]
fn dump_of_alias_draws_resolved_roots() {
    let mut d = dag();
    let x = d.add_node("x".to_string(), NodeKind::Alias);
    let b = d.add_node("b".to_string(), NodeKind::Concrete);
    let c = d.add_node("c".to_string(), NodeKind::Concrete);
    d.add_dependency(For(x), DependsOn(b));
    d.add_dependency(For(x), DependsOn(c));
    assert_eq!(d.dump(x, None), "b.2 [⋯ pending]\nc.3 [⋯ pending]\n");
}

#[test]
fn dump_shows_states_explain_and_suspension() {
    let mut d = dag();
    let a = d.add_node_with_explain("a".to_string(), NodeKind::Concrete, Some("root".to_string()));
    let b = d.add_node("b".to_string(), NodeKind::Concrete);
    let c = d.add_node("c".to_string(), NodeKind::Concrete);
    let e = d.add_node("e".to_string(), NodeKind::Concrete);
    d.add_dependency(For(a), DependsOn(b));
    d.add_dependency(For(a), DependsOn(c));
    d.add_dependency(For(a), DependsOn(e));
    d.set_state(a, NodeState::Running);
    d.set_state(b, NodeState::Terminated);
    d.set_state(c, NodeState::Terminated);
    d.set_exit_code(c, 3);
    d.set_state(e, NodeState::Terminating);
    let suspended = vec![a];
    assert_eq!(
        d.dump(a, Some(&suspended)),
        "a.1 [⚙ running ⏸ suspended] # root\n├── b.2 [✓ built]\n├── c.3 [✗ failed(3)]\n└── e.4 [⏳ terminating]\n"
    );
}

#[test]
fn dump_colored_wraps_state_in_ansi_colors() {
    let mut d = dag();
    let a = d.add_node("a".to_string(), NodeKind::Concrete);
    assert_eq!(d.dump_colored(a, None), "a.1 [\x1b[33m⋯ pending\x1b[0m]\n");
    d.set_state(a, NodeState::Terminated);
    d.set_exit_code(a, 1);
    assert_eq!(d.dump_colored(a, None), "a.1 [\x1b[31m✗ failed(1)\x1b[0m]\n");
}

#[test]
fn format_state_symbol_texts() {
    assert_eq!(Dag::format_state_symbol(NodeState::NotStarted, 0, false), "⋯ pending");
    assert_eq!(Dag::format_state_symbol(NodeState::Running, 0, true), "\x1b[35m⚙ running\x1b[0m");
    assert_eq!(Dag::format_state_symbol(NodeState::Terminated, 0, true), "\x1b[32m✓ built\x1b[0m");
    assert_eq!(Dag::format_state_symbol(NodeState::Terminated, -2, false), "✗ failed(-2)");
}

fn strip_ansi(s: &str) -> String {
    let chars: Vec<char> = s.chars().collect();
    let mut out = String::new();
    let mut i = 0;
    while i < chars.len() {
        if chars[i] == '\x1b' && i + 2 < chars.len() && chars[i + 1] == '[' && chars[i + 2].is_ascii_digit() {
            let mut j = i + 2;
            while j < chars.len() && chars[j].is_ascii_digit() {
                j += 1;
            }
            if j < chars.len() && chars[j] == 'm' {
                i = j + 1;
                continue;
            }
        }
        out.push(chars[i]);
        i += 1;
    }
    out
}

#[test]
fn dump_colored_without_colors_is_dump() {
    let mut d = dag();
    let a = d.add_node_with_explain("a".to_string(), NodeKind::Concrete, Some("root".to_string()));
    let b = d.add_node("b".to_string(), NodeKind::Concrete);
    let x = d.add_node("x".to_string(), NodeKind::Alias);
    let c = d.add_node("c".to_string(), NodeKind::Concrete);
    d.add_dependency(For(a), DependsOn(b));
    d.add_dependency(For(a), DependsOn(x));
    d.add_dependency(For(x), DependsOn(c));
    d.add_dependency(For(b), DependsOn(c));
    d.set_state(b, NodeState::Running);
    d.set_state(c, NodeState::Terminated);
    let suspended = vec![b];
    assert_eq!(strip_ansi(&d.dump_colored(a, Some(&suspended))), d.dump(a, Some(&suspended)));
    assert_ne!(d.dump_colored(a, None), d.dump(a, None));
}
