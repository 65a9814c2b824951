//! Alias resolution: the concrete nodes that a node depends on.
//!
//! Dependencies are visited breadth-first from the direct dependencies of a node.
//! Concrete nodes are yielded; alias nodes are expanded into their own direct
//! dependencies; handles without a node are skipped; every handle is visited once.

use vstd::prelude::*;

use crate::dag::{
    Dag, Node, NodeKind, NodeState, direct_deps, has_pid, lemma_first_index_exists,
    lookup, pid_index,
};
use crate::idgen::Handle;

verus! {

broadcast use Handle::lemma_handle_ext;

/// Number of nodes whose handle is not yet visited.
pub open spec fn unvisited_count(nodes: Seq<Node>, visited: Seq<Handle>) -> nat
    decreases nodes.len(),
{
    if nodes.len() == 0 {
        0
    } else {
        unvisited_count(nodes.drop_last(), visited) + if visited.contains(nodes.last().pid) {
            0nat
        } else {
            1nat
        }
    }
}

/// Visiting more handles never increases the count of unvisited nodes.
pub proof fn lemma_count_mono(nodes: Seq<Node>, v1: Seq<Handle>, v2: Seq<Handle>)
    requires
        forall|h: Handle| v1.contains(h) ==> v2.contains(h),
    ensures
        unvisited_count(nodes, v2) <= unvisited_count(nodes, v1),
    decreases nodes.len(),
{
    if nodes.len() > 0 {
        lemma_count_mono(nodes.drop_last(), v1, v2);
    }
}

/// Visiting the handle of an unvisited node strictly decreases the count.
pub proof fn lemma_count_strict(nodes: Seq<Node>, v1: Seq<Handle>, v2: Seq<Handle>, k: int)
    requires
        forall|h: Handle| v1.contains(h) ==> v2.contains(h),
        0 <= k < nodes.len(),
        !v1.contains(nodes[k].pid),
        v2.contains(nodes[k].pid),
    ensures
        unvisited_count(nodes, v2) < unvisited_count(nodes, v1),
    decreases nodes.len(),
{
    if k == nodes.len() - 1 {
        lemma_count_mono(nodes.drop_last(), v1, v2);
    } else {
        assert(nodes.drop_last()[k] == nodes[k]);
        lemma_count_strict(nodes.drop_last(), v1, v2, k);
    }
}

/// Pushing a handle keeps what was there and adds that handle only.
pub proof fn lemma_push_superset(v: Seq<Handle>, h: Handle)
    ensures
        forall|x: Handle| v.contains(x) ==> v.push(h).contains(x),
        v.push(h).contains(h),
        forall|x: Handle| v.push(h).contains(x) ==> v.contains(x) || x == h,
{
    assert(v.push(h)[v.len() as int] == h);
    assert forall|x: Handle| v.contains(x) implies v.push(h).contains(x) by {
        let i = choose|i: int| 0 <= i < v.len() && v[i] == x;
        assert(v.push(h)[i] == x);
    }
    assert forall|x: Handle| v.push(h).contains(x) implies v.contains(x) || x == h by {
        let i = choose|i: int| 0 <= i < v.push(h).len() && v.push(h)[i] == x;
        if i < v.len() {
            assert(v[i] == x);
        }
    }
}

/// One call of the iterator: pops handles until a concrete node is found or the
/// queue is exhausted. Returns the yielded handle and the new queue and visited list.
pub open spec fn resolve_next(
    nodes: Seq<Node>,
    deps: Seq<(Handle, Handle)>,
    to_visit: Seq<Handle>,
    visited: Seq<Handle>,
) -> (Option<Handle>, Seq<Handle>, Seq<Handle>)
    decreases unvisited_count(nodes, visited), to_visit.len(),
{
    if to_visit.len() == 0 {
        (None, to_visit, visited)
    } else {
        let pid = to_visit[0];
        let rest = to_visit.drop_first();
        if visited.contains(pid) {
            resolve_next(nodes, deps, rest, visited)
        } else {
            let v2 = visited.push(pid);
            proof {
                lemma_push_superset(visited, pid);
                lemma_count_mono(nodes, visited, v2);
            }
            if has_pid(nodes, pid) {
                if nodes[pid_index(nodes, pid)].kind == NodeKind::Concrete {
                    (Some(pid), rest, v2)
                } else {
                    proof {
                        lemma_first_index_exists(nodes, pid);
                        lemma_count_strict(nodes, visited, v2, pid_index(nodes, pid));
                    }
                    resolve_next(nodes, deps, rest + direct_deps(deps, pid), v2)
                }
            } else {
                resolve_next(nodes, deps, rest, v2)
            }
        }
    }
}

/// What one step of resolution guarantees about its result.
pub proof fn lemma_resolve_next(
    nodes: Seq<Node>,
    deps: Seq<(Handle, Handle)>,
    to_visit: Seq<Handle>,
    visited: Seq<Handle>,
)
    ensures
        ({
            let (r, _, v2) = resolve_next(nodes, deps, to_visit, visited);
            &&& forall|h: Handle| visited.contains(h) ==> v2.contains(h)
            &&& unvisited_count(nodes, v2) <= unvisited_count(nodes, visited)
            &&& r matches Some(h) ==> {
                &&& !visited.contains(h)
                &&& v2.contains(h)
                &&& lookup(nodes, h) matches Some(n) && n.kind == NodeKind::Concrete
                &&& unvisited_count(nodes, v2) < unvisited_count(nodes, visited)
            }
        }),
    decreases unvisited_count(nodes, visited), to_visit.len(),
{
    if to_visit.len() == 0 {
    } else {
        let pid = to_visit[0];
        let rest = to_visit.drop_first();
        if visited.contains(pid) {
            lemma_resolve_next(nodes, deps, rest, visited);
        } else {
            let v2 = visited.push(pid);
            lemma_push_superset(visited, pid);
            lemma_count_mono(nodes, visited, v2);
            if has_pid(nodes, pid) {
                lemma_first_index_exists(nodes, pid);
                lemma_count_strict(nodes, visited, v2, pid_index(nodes, pid));
                if nodes[pid_index(nodes, pid)].kind == NodeKind::Concrete {
                } else {
                    lemma_resolve_next(nodes, deps, rest + direct_deps(deps, pid), v2);
                    let (r, _, v3) = resolve_next(nodes, deps, rest + direct_deps(deps, pid), v2);
                    if let Some(h) = r {
                        assert(h != pid);
                    }
                }
            } else {
                lemma_resolve_next(nodes, deps, rest, v2);
                let (r, _, v3) = resolve_next(nodes, deps, rest, v2);
                if let Some(h) = r {
                    assert(h != pid) by {
                        if h == pid {
                            assert(lookup(nodes, h) is None);
                        }
                    }
                }
            }
        }
    }
}

/// When a step yields nothing, the queue is exhausted.
pub proof fn lemma_resolve_next_none(
    nodes: Seq<Node>,
    deps: Seq<(Handle, Handle)>,
    to_visit: Seq<Handle>,
    visited: Seq<Handle>,
)
    requires
        resolve_next(nodes, deps, to_visit, visited).0 is None,
    ensures
        resolve_next(nodes, deps, to_visit, visited).1.len() == 0,
    decreases unvisited_count(nodes, visited), to_visit.len(),
{
    if to_visit.len() == 0 {
    } else {
        let pid = to_visit[0];
        let rest = to_visit.drop_first();
        if visited.contains(pid) {
            lemma_resolve_next_none(nodes, deps, rest, visited);
        } else {
            let v2 = visited.push(pid);
            lemma_push_superset(visited, pid);
            lemma_count_mono(nodes, visited, v2);
            if has_pid(nodes, pid) {
                lemma_first_index_exists(nodes, pid);
                lemma_count_strict(nodes, visited, v2, pid_index(nodes, pid));
                if nodes[pid_index(nodes, pid)].kind != NodeKind::Concrete {
                    lemma_resolve_next_none(nodes, deps, rest + direct_deps(deps, pid), v2);
                }
            } else {
                lemma_resolve_next_none(nodes, deps, rest, v2);
            }
        }
    }
}

/// All handles that repeated calls of the iterator yield, in order.
pub open spec fn resolve_all(
    nodes: Seq<Node>,
    deps: Seq<(Handle, Handle)>,
    to_visit: Seq<Handle>,
    visited: Seq<Handle>,
) -> Seq<Handle>
    decreases unvisited_count(nodes, visited),
{
    let (r, tv2, v2) = resolve_next(nodes, deps, to_visit, visited);
    match r {
        None => Seq::empty(),
        Some(h) => {
            proof {
                lemma_resolve_next(nodes, deps, to_visit, visited);
            }
            seq![h] + resolve_all(nodes, deps, tv2, v2)
        },
    }
}

/// The concrete nodes that `pid` depends on, aliases resolved.
pub open spec fn resolved(dag: Dag, pid: Handle) -> Seq<Handle> {
    resolve_all(dag.nodes(), dag.deps(), direct_deps(dag.deps(), pid), Seq::empty())
}

/// Facts about the whole resolved sequence: every element is a concrete node, none was
/// visited before, and no element occurs twice.
pub proof fn lemma_resolve_all(
    nodes: Seq<Node>,
    deps: Seq<(Handle, Handle)>,
    to_visit: Seq<Handle>,
    visited: Seq<Handle>,
)
    ensures
        ({
            let s = resolve_all(nodes, deps, to_visit, visited);
            &&& forall|i: int| 0 <= i < s.len() ==> (lookup(nodes, #[trigger] s[i]) matches Some(n) && n.kind
                == NodeKind::Concrete)
            &&& forall|i: int| 0 <= i < s.len() ==> !visited.contains(#[trigger] s[i])
            &&& forall|i: int, j: int| 0 <= i < j < s.len() ==> s[i] != s[j]
        }),
    decreases unvisited_count(nodes, visited),
{
    let (r, tv2, v2) = resolve_next(nodes, deps, to_visit, visited);
    lemma_resolve_next(nodes, deps, to_visit, visited);
    match r {
        None => {},
        Some(h) => {
            lemma_resolve_all(nodes, deps, tv2, v2);
            let tail = resolve_all(nodes, deps, tv2, v2);
            let s = seq![h] + tail;
            assert(s == resolve_all(nodes, deps, to_visit, visited));
            assert forall|i: int| 0 <= i < s.len() implies (lookup(nodes, #[trigger] s[i]) matches Some(n)
                && n.kind == NodeKind::Concrete) by {
                if i > 0 {
                    assert(s[i] == tail[i - 1]);
                }
            }
            assert forall|i: int| 0 <= i < s.len() implies !visited.contains(#[trigger] s[i]) by {
                if i > 0 {
                    assert(s[i] == tail[i - 1]);
                    assert(!v2.contains(tail[i - 1]));
                }
            }
            assert forall|i: int, j: int| 0 <= i < j < s.len() implies s[i] != s[j] by {
                assert(s[j] == tail[j - 1]);
                assert(!v2.contains(tail[j - 1]));
                if i > 0 {
                    assert(s[i] == tail[i - 1]);
                }
            }
        },
    }
}

/// Law: every handle that resolution yields is a concrete node of the DAG, and no
/// handle is yielded twice.
pub proof fn lemma_resolved_concrete_and_distinct(dag: Dag, pid: Handle)
    ensures
        forall|i: int| 0 <= i < resolved(dag, pid).len() ==> (dag.node(#[trigger] resolved(dag, pid)[i]) matches Some(n)
            && n.kind == NodeKind::Concrete),
        forall|i: int, j: int| 0 <= i < j < resolved(dag, pid).len() ==> resolved(dag, pid)[i] != resolved(dag, pid)[j],
{
    lemma_resolve_all(dag.nodes(), dag.deps(), direct_deps(dag.deps(), pid), Seq::empty());
}

/// Whether `h` is a node of the DAG that is an alias.
pub open spec fn is_alias_node(nodes: Seq<Node>, h: Handle) -> bool {
    lookup(nodes, h) matches Some(n) && n.kind == NodeKind::Alias
}

/// Whether `h` is a node of the DAG that is concrete.
pub open spec fn is_concrete_node(nodes: Seq<Node>, h: Handle) -> bool {
    lookup(nodes, h) matches Some(n) && n.kind == NodeKind::Concrete
}

/// Whether `p` is a path of dependency edges from `p[0]` to its last handle whose
/// intermediate handles are all alias nodes.
pub open spec fn is_alias_path(nodes: Seq<Node>, deps: Seq<(Handle, Handle)>, p: Seq<Handle>) -> bool {
    &&& p.len() >= 2
    &&& forall|i: int| 0 <= i < p.len() - 1 ==> #[trigger] direct_deps(deps, p[i]).contains(p[i + 1])
    &&& forall|i: int| 0 < i < p.len() - 1 ==> is_alias_node(nodes, #[trigger] p[i])
}

/// Whether `h` is reached from `pid` by at least one dependency edge, passing through
/// alias nodes only.
pub open spec fn alias_reaches(nodes: Seq<Node>, deps: Seq<(Handle, Handle)>, pid: Handle, h: Handle) -> bool {
    exists|p: Seq<Handle>| p[0] == pid && p.last() == h && #[trigger] is_alias_path(nodes, deps, p)
}

/// The invariant of resolution from `pid`: everything queued or visited is reached from
/// `pid` through aliases, and the dependencies of `pid` and of every visited alias are
/// visited or queued.
pub open spec fn resolve_inv(
    nodes: Seq<Node>,
    deps: Seq<(Handle, Handle)>,
    pid: Handle,
    to_visit: Seq<Handle>,
    visited: Seq<Handle>,
) -> bool {
    &&& forall|h: Handle| #[trigger] to_visit.contains(h) ==> alias_reaches(nodes, deps, pid, h)
    &&& forall|h: Handle| #[trigger] visited.contains(h) ==> alias_reaches(nodes, deps, pid, h)
    &&& forall|e: Handle| #[trigger] direct_deps(deps, pid).contains(e) ==> visited.contains(e) || to_visit.contains(e)
    &&& forall|v: Handle, e: Handle|
        visited.contains(v) && is_alias_node(nodes, v) && #[trigger] direct_deps(deps, v).contains(e) ==> visited.contains(e)
            || to_visit.contains(e)
}

proof fn lemma_alias_step(nodes: Seq<Node>, deps: Seq<(Handle, Handle)>, pid: Handle, x: Handle, e: Handle)
    requires
        alias_reaches(nodes, deps, pid, x),
        is_alias_node(nodes, x),
        direct_deps(deps, x).contains(e),
    ensures
        alias_reaches(nodes, deps, pid, e),
{
    let p = choose|p: Seq<Handle>| p[0] == pid && p.last() == x && #[trigger] is_alias_path(nodes, deps, p);
    let q = p.push(e);
    assert forall|i: int| 0 <= i < q.len() - 1 implies #[trigger] direct_deps(deps, q[i]).contains(q[i + 1]) by {
        if i < p.len() - 1 {
            assert(q[i] == p[i] && q[i + 1] == p[i + 1]);
            assert(direct_deps(deps, p[i]).contains(p[i + 1]));
        }
    }
    assert forall|i: int| 0 < i < q.len() - 1 implies is_alias_node(nodes, #[trigger] q[i]) by {
        assert(q[i] == p[i]);
        if i < p.len() - 1 {
            assert(is_alias_node(nodes, p[i]));
        }
    }
    assert(is_alias_path(nodes, deps, q));
}

/// One step of resolution keeps the invariant; it visits no concrete node but the one
/// it yields, which is reached through aliases and was not visited before.
proof fn lemma_resolve_next_inv(
    nodes: Seq<Node>,
    deps: Seq<(Handle, Handle)>,
    pid: Handle,
    to_visit: Seq<Handle>,
    visited: Seq<Handle>,
)
    requires
        resolve_inv(nodes, deps, pid, to_visit, visited),
    ensures
        ({
            let (r, tv2, v2) = resolve_next(nodes, deps, to_visit, visited);
            &&& resolve_inv(nodes, deps, pid, tv2, v2)
            &&& forall|h: Handle| visited.contains(h) ==> v2.contains(h)
            &&& forall|h: Handle| #[trigger] v2.contains(h) && !visited.contains(h) && is_concrete_node(nodes, h) ==> r == Some(h)
            &&& r matches Some(h) ==> alias_reaches(nodes, deps, pid, h) && v2.contains(h)
            &&& r is None ==> tv2.len() == 0
        }),
    decreases unvisited_count(nodes, visited), to_visit.len(),
{
    lemma_resolve_next(nodes, deps, to_visit, visited);
    if to_visit.len() == 0 {
    } else {
        let x = to_visit[0];
        let rest = to_visit.drop_first();
        assert(to_visit.contains(x));
        assert forall|h: Handle| #[trigger] rest.contains(h) implies to_visit.contains(h) by {
            let i = choose|i: int| 0 <= i < rest.len() && rest[i] == h;
            assert(to_visit[i + 1] == h);
        }
        assert forall|h: Handle| #[trigger] to_visit.contains(h) implies h == x || rest.contains(h) by {
            let i = choose|i: int| 0 <= i < to_visit.len() && to_visit[i] == h;
            if i > 0 {
                assert(rest[i - 1] == h);
            }
        }
        if visited.contains(x) {
            lemma_resolve_next_inv(nodes, deps, pid, rest, visited);
        } else {
            let v2 = visited.push(x);
            lemma_push_superset(visited, x);
            lemma_count_mono(nodes, visited, v2);
            assert forall|h: Handle| #[trigger] v2.contains(h) implies visited.contains(h) || h == x by {
                let i = choose|i: int| 0 <= i < v2.len() && v2[i] == h;
                if i < visited.len() {
                    assert(visited[i] == h);
                }
            }
            if has_pid(nodes, x) {
                lemma_first_index_exists(nodes, x);
                lemma_count_strict(nodes, visited, v2, pid_index(nodes, x));
                if nodes[pid_index(nodes, x)].kind == NodeKind::Concrete {
                } else {
                    assert(is_alias_node(nodes, x));
                    let tv = rest + direct_deps(deps, x);
                    assert forall|h: Handle| #[trigger] tv.contains(h) implies rest.contains(h) || direct_deps(deps, x).contains(h) by {
                        let i = choose|i: int| 0 <= i < tv.len() && tv[i] == h;
                        if i < rest.len() {
                            assert(rest[i] == h);
                        } else {
                            assert(direct_deps(deps, x)[i - rest.len()] == h);
                        }
                    }
                    assert forall|h: Handle| rest.contains(h) || direct_deps(deps, x).contains(h) implies #[trigger] tv.contains(h) by {
                        if rest.contains(h) {
                            let i = choose|i: int| 0 <= i < rest.len() && rest[i] == h;
                            assert(tv[i] == h);
                        } else {
                            let i = choose|i: int| 0 <= i < direct_deps(deps, x).len() && direct_deps(deps, x)[i] == h;
                            assert(tv[rest.len() + i] == h);
                        }
                    }
                    assert forall|h: Handle| #[trigger] tv.contains(h) implies alias_reaches(nodes, deps, pid, h) by {
                        if direct_deps(deps, x).contains(h) {
                            lemma_alias_step(nodes, deps, pid, x, h);
                        }
                    }
                    lemma_resolve_next_inv(nodes, deps, pid, tv, v2);
                }
            } else {
                assert(!is_alias_node(nodes, x));
                assert(!is_concrete_node(nodes, x));
                lemma_resolve_next_inv(nodes, deps, pid, rest, v2);
            }
        }
    }
}

/// Whatever reaches `pid`'s dependencies through aliases is visited, when nothing is
/// left in the queue.
proof fn lemma_alias_path_visited(
    nodes: Seq<Node>,
    deps: Seq<(Handle, Handle)>,
    pid: Handle,
    visited: Seq<Handle>,
    p: Seq<Handle>,
    k: int,
)
    requires
        resolve_inv(nodes, deps, pid, Seq::empty(), visited),
        is_alias_path(nodes, deps, p),
        p[0] == pid,
        1 <= k < p.len(),
    ensures
        visited.contains(p[k]),
    decreases k,
{
    let j = k - 1;
    assert(direct_deps(deps, p[j]).contains(p[j + 1]));
    assert(p[j + 1] == p[k]);
    if k == 1 {
    } else {
        lemma_alias_path_visited(nodes, deps, pid, visited, p, k - 1);
        assert(is_alias_node(nodes, p[k - 1]));
    }
}

/// What the rest of a resolution yields: exactly the concrete nodes reached through
/// aliases that are not yet visited.
proof fn lemma_resolve_all_reach(
    nodes: Seq<Node>,
    deps: Seq<(Handle, Handle)>,
    pid: Handle,
    to_visit: Seq<Handle>,
    visited: Seq<Handle>,
)
    requires
        resolve_inv(nodes, deps, pid, to_visit, visited),
    ensures
        forall|h: Handle| #[trigger] resolve_all(nodes, deps, to_visit, visited).contains(h) <==> is_concrete_node(nodes, h)
            && alias_reaches(nodes, deps, pid, h) && !visited.contains(h),
    decreases unvisited_count(nodes, visited),
{
    let (r, tv2, v2) = resolve_next(nodes, deps, to_visit, visited);
    lemma_resolve_next(nodes, deps, to_visit, visited);
    lemma_resolve_next_inv(nodes, deps, pid, to_visit, visited);
    let out = resolve_all(nodes, deps, to_visit, visited);
    match r {
        None => {
            assert forall|h: Handle| !(is_concrete_node(nodes, h) && alias_reaches(nodes, deps, pid, h) && !visited.contains(h)) by {
                if is_concrete_node(nodes, h) && alias_reaches(nodes, deps, pid, h) && !visited.contains(h) {
                    let p = choose|p: Seq<Handle>| p[0] == pid && p.last() == h && #[trigger] is_alias_path(nodes, deps, p);
                    assert(tv2 =~= Seq::<Handle>::empty());
                    lemma_alias_path_visited(nodes, deps, pid, v2, p, p.len() - 1);
                    assert(v2.contains(h));
                }
            }
            assert(out =~= Seq::<Handle>::empty());
        },
        Some(h0) => {
            lemma_resolve_all_reach(nodes, deps, pid, tv2, v2);
            let tail = resolve_all(nodes, deps, tv2, v2);
            assert(out == seq![h0] + tail);
            assert forall|h: Handle| #[trigger] out.contains(h) <==> is_concrete_node(nodes, h)
                && alias_reaches(nodes, deps, pid, h) && !visited.contains(h) by {
                if out.contains(h) {
                    let i = choose|i: int| 0 <= i < out.len() && out[i] == h;
                    if i > 0 {
                        assert(tail[i - 1] == h);
                        assert(tail.contains(h));
                    }
                }
                if is_concrete_node(nodes, h) && alias_reaches(nodes, deps, pid, h) && !visited.contains(h) {
                    if v2.contains(h) {
                        assert(h == h0);
                        assert(out[0] == h);
                    } else {
                        assert(tail.contains(h));
                        let i = choose|i: int| 0 <= i < tail.len() && tail[i] == h;
                        assert(out[i + 1] == h);
                    }
                }
            }
        },
    }
}

/// Law: resolving the dependencies of `pid` yields exactly the concrete nodes reached
/// from `pid` by dependency edges through alias nodes only, each once.
pub proof fn lemma_resolved_reach(dag: Dag, pid: Handle)
    ensures
        forall|h: Handle| #[trigger] resolved(dag, pid).contains(h) <==> is_concrete_node(dag.nodes(), h) && alias_reaches(
            dag.nodes(),
            dag.deps(),
            pid,
            h,
        ),
        forall|i: int, j: int| 0 <= i < j < resolved(dag, pid).len() ==> resolved(dag, pid)[i] != resolved(dag, pid)[j],
{
    let nodes = dag.nodes();
    let deps = dag.deps();
    let tv = direct_deps(deps, pid);
    assert forall|h: Handle| #[trigger] tv.contains(h) implies alias_reaches(nodes, deps, pid, h) by {
        let p = seq![pid, h];
        assert(p[0] == pid && p[1] == h);
        assert(is_alias_path(nodes, deps, p));
    }
    lemma_resolve_all_reach(nodes, deps, pid, tv, Seq::empty());
    lemma_resolve_all(nodes, deps, tv, Seq::empty());
}

/// Whether `v` contains `h`.
pub fn contains_handle(v: &Vec<Handle>, h: Handle) -> (r: bool)
    ensures
        r == v@.contains(h),
{
    let mut i: usize = 0;
    while i < v.len()
        invariant
            i <= v@.len(),
            forall|j: int| 0 <= j < i ==> v@[j] != h,
        decreases v@.len() - i,
    {
        if v[i] == h {
            return true;
        }
        i = i + 1;
    }
    false
}

/// One step of resolution over a queue and a visited list.
pub fn resolve_step(dag: &Dag, to_visit: &mut Vec<Handle>, visited: &mut Vec<Handle>) -> (r: Option<Handle>)
    ensures
        (r, final(to_visit)@, final(visited)@) == resolve_next(dag.nodes(), dag.deps(), old(to_visit)@, old(visited)@),
{
    let ghost nodes = dag.nodes();
    let ghost deps = dag.deps();
    let ghost target = resolve_next(nodes, deps, to_visit@, visited@);
    while to_visit.len() > 0
        invariant
            resolve_next(nodes, deps, to_visit@, visited@) == target,
            target == resolve_next(nodes, deps, old(to_visit)@, old(visited)@),
            nodes == dag.nodes(),
            deps == dag.deps(),
        decreases unvisited_count(nodes, visited@), to_visit@.len(),
    {
        let ghost tv0 = to_visit@;
        let ghost v0 = visited@;
        let pid = to_visit.remove(0);
        assert(to_visit@ =~= tv0.drop_first());
        if contains_handle(visited, pid) {
            continue;
        }
        visited.push(pid);
        proof {
            lemma_push_superset(v0, pid);
            lemma_count_mono(nodes, v0, visited@);
        }
        match dag.get_node(pid) {
            Some(node) => {
                proof { lemma_first_index_exists(nodes, pid); }
                match node.kind {
                    NodeKind::Concrete => {
                        assert(resolve_next(nodes, deps, tv0, v0) == (Some(pid), to_visit@, visited@));
                        return Some(pid);
                    },
                    NodeKind::Alias => {
                        proof { lemma_count_strict(nodes, v0, visited@, pid_index(nodes, pid)); }
                        let mut more = dag.get_direct_dependencies(pid);
                        to_visit.append(&mut more);
                    },
                }
            },
            None => {},
        }
    }
    None
}

/// Lazily yields the concrete nodes that a node depends on, aliases resolved.
pub struct DependencyIterator<'a> {
    dag: &'a Dag,
    to_visit: Vec<Handle>,
    visited: Vec<Handle>,
}

impl<'a> DependencyIterator<'a> {
    /// The DAG being walked.
    pub closed spec fn dag(self) -> Dag {
        *self.dag
    }

    /// Handles still to visit, front first.
    pub closed spec fn to_visit(self) -> Seq<Handle> {
        self.to_visit@
    }

    /// Handles already visited.
    pub closed spec fn visited(self) -> Seq<Handle> {
        self.visited@
    }

    /// The next concrete dependency, if any.
    pub fn next(&mut self) -> (r: Option<Handle>)
        ensures
            final(self).dag() == old(self).dag(),
            (r, final(self).to_visit(), final(self).visited()) == resolve_next(
                old(self).dag().nodes(),
                old(self).dag().deps(),
                old(self).to_visit(),
                old(self).visited(),
            ),
    {
        resolve_step(self.dag, &mut self.to_visit, &mut self.visited)
    }

    /// All remaining concrete dependencies.
    pub fn collect_all(self) -> (r: Vec<Handle>)
        ensures
            r@ == resolve_all(self.dag().nodes(), self.dag().deps(), self.to_visit(), self.visited()),
    {
        let mut it = self;
        let ghost nodes = it.dag().nodes();
        let ghost deps = it.dag().deps();
        let ghost target = resolve_all(nodes, deps, it.to_visit(), it.visited());
        let mut out: Vec<Handle> = Vec::new();
        loop
            invariant
                nodes == it.dag().nodes(),
                deps == it.dag().deps(),
                out@ + resolve_all(nodes, deps, it.to_visit(), it.visited()) == target,
                target == resolve_all(self.dag().nodes(), self.dag().deps(), self.to_visit(), self.visited()),
            decreases unvisited_count(nodes, it.visited()),
        {
            proof { lemma_resolve_next(nodes, deps, it.to_visit(), it.visited()); }
            let ghost before = resolve_all(nodes, deps, it.to_visit(), it.visited());
            match it.next() {
                Some(h) => {
                    assert(before == seq![h] + resolve_all(nodes, deps, it.to_visit(), it.visited()));
                    out.push(h);
                    assert(out@ + resolve_all(nodes, deps, it.to_visit(), it.visited()) =~= target);
                },
                None => {
                    assert(before == Seq::<Handle>::empty());
                    assert(out@ =~= target);
                    return out;
                },
            }
        }
    }
}

impl Dag {
    /// Iterator over the concrete nodes that `pid` depends on (aliases resolved).
    pub fn resolve_dependencies(&self, pid: Handle) -> (it: DependencyIterator<'_>)
        ensures
            it.dag() == *self,
            it.to_visit() == direct_deps(self.deps(), pid),
            it.visited() == Seq::<Handle>::empty(),
    {
        DependencyIterator { dag: self, to_visit: self.get_direct_dependencies(pid), visited: Vec::new() }
    }

    /// The concrete nodes that `pid` depends on (aliases resolved), in resolution order.
    pub fn collect_resolved(&self, pid: Handle) -> (r: Vec<Handle>)
        ensures
            r@ == resolved(*self, pid),
    {
        self.resolve_dependencies(pid).collect_all()
    }
}

/// Variant of `DependencyIterator` that does not borrow the DAG: each step reads the
/// DAG it is given and also reports the state of the yielded node.
pub struct OwnedDependencyIterator {
    to_visit: Vec<Handle>,
    visited: Vec<Handle>,
}

impl OwnedDependencyIterator {
    /// Handles still to visit, front first.
    pub closed spec fn to_visit(self) -> Seq<Handle> {
        self.to_visit@
    }

    /// Handles already visited.
    pub closed spec fn visited(self) -> Seq<Handle> {
        self.visited@
    }

    /// Create an iterator over the dependencies of `pid`.
    pub fn new(dag: &Dag, pid: Handle) -> (it: Self)
        ensures
            it.to_visit() == direct_deps(dag.deps(), pid),
            it.visited() == Seq::<Handle>::empty(),
    {
        Self { to_visit: dag.get_direct_dependencies(pid), visited: Vec::new() }
    }

    /// The next concrete dependency with its current state, if any.
    pub fn next(&mut self, dag: &Dag) -> (r: Option<(Handle, NodeState)>)
        ensures
            ({
                let (h, tv, v) = resolve_next(dag.nodes(), dag.deps(), old(self).to_visit(), old(self).visited());
                &&& final(self).to_visit() == tv
                &&& final(self).visited() == v
                &&& match h {
                    None => r is None,
                    Some(h) => r matches Some(p) && p.0 == h && (dag.node(h) matches Some(n) && p.1 == n.state),
                }
            }),
    {
        proof { lemma_resolve_next(dag.nodes(), dag.deps(), self.to_visit@, self.visited@); }
        match resolve_step(dag, &mut self.to_visit, &mut self.visited) {
            None => None,
            Some(h) => match dag.get_node(h) {
                Some(n) => Some((h, n.state)),
                None => None,
            },
        }
    }
}

} // verus!
