//! Order in which the nodes needed for a target are run.

use vstd::prelude::*;

use crate::dag::{Dag, Node, NodeKind, direct_deps, has_pid, lemma_first_index_exists, lookup, pid_index};
use crate::idgen::Handle;
use crate::resolve::{
    contains_handle, lemma_count_mono, lemma_count_strict, lemma_push_superset, lemma_resolve_all, resolve_all,
    unvisited_count,
};

verus! {

broadcast use Handle::lemma_handle_ext;

/// Conditions for stopping DAG iteration
#[derive(Debug, Clone, Copy)]
pub struct StopConditions {
    /// Execute only the first ready node, then stop
    pub one_step: bool,
    /// Stop before executing this node
    pub stop_before: Option<Handle>,
    /// Stop after executing this node
    pub stop_after: Option<Handle>,
}

impl Default for StopConditions {
    fn default() -> (s: Self)
        ensures
            !s.one_step,
            s.stop_before is None,
            s.stop_after is None,
    {
        StopConditions { one_step: false, stop_before: None, stop_after: None }
    }
}

/// The concrete nodes that `x` depends on, aliases resolved.
pub open spec fn rdeps(nodes: Seq<Node>, deps: Seq<(Handle, Handle)>, x: Handle) -> Seq<Handle> {
    resolve_all(nodes, deps, direct_deps(deps, x), Seq::empty())
}

/// Whether `x` is a concrete node.
pub open spec fn is_concrete(nodes: Seq<Node>, x: Handle) -> bool {
    lookup(nodes, x) matches Some(n) && n.kind == NodeKind::Concrete
}

/// `result` with `x` appended when `x` is a concrete node.
pub open spec fn emit(nodes: Seq<Node>, result: Seq<Handle>, x: Handle) -> Seq<Handle> {
    if is_concrete(nodes, x) {
        result.push(x)
    } else {
        result
    }
}

/// Depth-first traversal that places each node after its dependencies. `frames` holds
/// the nodes being explored, innermost last, each with the dependencies it has yet to
/// explore. A frame with nothing left to explore is finished: its node is appended to
/// `result` when concrete. Otherwise its next dependency, when not yet visited, is
/// visited and, when it is a node of the DAG, explored in a new frame. Gives the visited
/// handles and the result.
pub open spec fn dfs_post(
    nodes: Seq<Node>,
    deps: Seq<(Handle, Handle)>,
    frames: Seq<(Handle, Seq<Handle>)>,
    visited: Seq<Handle>,
    result: Seq<Handle>,
) -> (Seq<Handle>, Seq<Handle>)
    decreases unvisited_count(nodes, visited), frames.len(), if frames.len() > 0 {
        frames.last().1.len()
    } else {
        0
    },
{
    if frames.len() == 0 {
        (visited, result)
    } else {
        let x = frames.last().0;
        let rem = frames.last().1;
        if rem.len() == 0 {
            dfs_post(nodes, deps, frames.drop_last(), visited, emit(nodes, result, x))
        } else {
            let d = rem[0];
            let frames2 = frames.drop_last().push((x, rem.drop_first()));
            if visited.contains(d) {
                dfs_post(nodes, deps, frames2, visited, result)
            } else {
                let v2 = visited.push(d);
                proof {
                    lemma_push_superset(visited, d);
                    lemma_count_mono(nodes, visited, v2);
                }
                if has_pid(nodes, d) {
                    proof {
                        lemma_first_index_exists(nodes, d);
                        lemma_count_strict(nodes, visited, v2, pid_index(nodes, d));
                    }
                    dfs_post(nodes, deps, frames2.push((d, rdeps(nodes, deps, d))), v2, result)
                } else {
                    dfs_post(nodes, deps, frames2, v2, result)
                }
            }
        }
    }
}

/// The order built for `target`: every concrete node that the target needs, each after
/// the nodes it depends on (where the dependencies form no cycle); nothing when the
/// target is not a node of the DAG.
pub open spec fn build_order_spec(dag: Dag, target: Handle) -> Seq<Handle> {
    if has_pid(dag.nodes(), target) {
        dfs_post(
            dag.nodes(),
            dag.deps(),
            seq![(target, rdeps(dag.nodes(), dag.deps(), target))],
            seq![target],
            Seq::empty(),
        ).1
    } else {
        Seq::empty()
    }
}

/// Whether each handle of `p` is a resolved dependency of the one before it.
pub open spec fn is_dep_path(nodes: Seq<Node>, deps: Seq<(Handle, Handle)>, p: Seq<Handle>) -> bool {
    forall|i: int| 0 <= i < p.len() - 1 ==> #[trigger] rdeps(nodes, deps, p[i]).contains(p[i + 1])
}

/// Whether `h` can be reached from `a` through resolved dependencies (in zero or more
/// steps).
pub open spec fn reaches(nodes: Seq<Node>, deps: Seq<(Handle, Handle)>, a: Handle, h: Handle) -> bool {
    exists|p: Seq<Handle>| p.len() >= 1 && p[0] == a && p.last() == h && #[trigger] is_dep_path(nodes, deps, p)
}

/// Whether no node depends on itself, directly or through other nodes.
pub open spec fn acyclic(nodes: Seq<Node>, deps: Seq<(Handle, Handle)>) -> bool {
    forall|p: Seq<Handle>| p.len() >= 2 && #[trigger] is_dep_path(nodes, deps, p) ==> p[0] != p.last()
}

/// Whether every resolved dependency of an element of `order` comes before it.
pub open spec fn dependencies_first(nodes: Seq<Node>, deps: Seq<(Handle, Handle)>, order: Seq<Handle>) -> bool {
    forall|i: int, e: Handle|
        0 <= i < order.len() && #[trigger] rdeps(nodes, deps, order[i]).contains(e) ==> exists|j: int|
            0 <= j < i && order[j] == e
}

/// Whether some frame explores `v`.
pub open spec fn in_frames(frames: Seq<(Handle, Seq<Handle>)>, v: Handle) -> bool {
    exists|k: int| 0 <= k < frames.len() && frames[k].0 == v
}

/// The invariant of the traversal from `target`.
pub open spec fn dfs_inv(
    nodes: Seq<Node>,
    deps: Seq<(Handle, Handle)>,
    target: Handle,
    frames: Seq<(Handle, Seq<Handle>)>,
    visited: Seq<Handle>,
    result: Seq<Handle>,
) -> bool {
    // the result: visited concrete nodes, each once
    &&& forall|i: int| 0 <= i < result.len() ==> visited.contains(#[trigger] result[i])
    &&& forall|i: int| 0 <= i < result.len() ==> is_concrete(nodes, #[trigger] result[i])
    &&& forall|i: int, j: int| 0 <= i < j < result.len() ==> result[i] != result[j]
    // the frames: visited nodes, not yet in the result, each once
    &&& forall|k: int| 0 <= k < frames.len() ==> visited.contains(#[trigger] frames[k].0)
    &&& forall|k: int| 0 <= k < frames.len() ==> has_pid(nodes, #[trigger] frames[k].0)
    &&& forall|k: int| 0 <= k < frames.len() ==> !result.contains(#[trigger] frames[k].0)
    &&& forall|k: int, l: int| 0 <= k < l < frames.len() ==> frames[k].0 != frames[l].0
    // what a frame has left to explore are its dependencies; the others are visited
    &&& forall|k: int, e: Handle| 0 <= k < frames.len() && #[trigger] frames[k].1.contains(e) ==> rdeps(
        nodes,
        deps,
        frames[k].0,
    ).contains(e)
    &&& forall|k: int, e: Handle|
        0 <= k < frames.len() && #[trigger] rdeps(nodes, deps, frames[k].0).contains(e) ==> visited.contains(e)
            || frames[k].1.contains(e)
    // each frame explores a dependency of the frame below it
    &&& forall|k: int| 0 <= k < frames.len() - 1 ==> #[trigger] rdeps(nodes, deps, frames[k].0).contains(frames[k + 1].0)
    // a visited concrete node is in the result or still explored
    &&& forall|v: Handle| visited.contains(v) && is_concrete(nodes, v) ==> result.contains(v) || in_frames(frames, v)
    // a visited node that is no longer explored has all its dependencies visited
    &&& forall|v: Handle, e: Handle|
        visited.contains(v) && has_pid(nodes, v) && !in_frames(frames, v) && #[trigger] rdeps(nodes, deps, v).contains(e)
            ==> visited.contains(e)
    // everything visited is reached from the target
    &&& forall|v: Handle| #[trigger] visited.contains(v) ==> reaches(nodes, deps, target, v)
    // without cycles, the result puts dependencies first
    &&& acyclic(nodes, deps) ==> dependencies_first(nodes, deps, result)
}

/// The resolved dependencies of any handle are concrete nodes.
pub proof fn lemma_rdeps_concrete(nodes: Seq<Node>, deps: Seq<(Handle, Handle)>, x: Handle, e: Handle)
    requires
        rdeps(nodes, deps, x).contains(e),
    ensures
        is_concrete(nodes, e),
        has_pid(nodes, e),
{
    lemma_resolve_all(nodes, deps, direct_deps(deps, x), Seq::empty());
    let s = rdeps(nodes, deps, x);
    let i = choose|i: int| 0 <= i < s.len() && s[i] == e;
    assert(lookup(nodes, s[i]) matches Some(n) && n.kind == NodeKind::Concrete);
}

/// Reaching `x`, and `e` being a dependency of `x`, `e` is reached.
proof fn lemma_reach_step(nodes: Seq<Node>, deps: Seq<(Handle, Handle)>, a: Handle, x: Handle, e: Handle)
    requires
        reaches(nodes, deps, a, x),
        rdeps(nodes, deps, x).contains(e),
    ensures
        reaches(nodes, deps, a, e),
{
    let p = choose|p: Seq<Handle>| p.len() >= 1 && p[0] == a && p.last() == x && #[trigger] is_dep_path(nodes, deps, p);
    let q = p.push(e);
    assert forall|i: int| 0 <= i < q.len() - 1 implies #[trigger] rdeps(nodes, deps, q[i]).contains(q[i + 1]) by {
        if i < p.len() - 1 {
            assert(q[i] == p[i] && q[i + 1] == p[i + 1]);
            assert(rdeps(nodes, deps, p[i]).contains(p[i + 1]));
        } else {
            assert(q[i] == x && q[i + 1] == e);
        }
    }
    assert(is_dep_path(nodes, deps, q));
}

/// The frames from `k` to the top, then `e`, a dependency of the top frame, form a path.
proof fn lemma_frames_path(
    nodes: Seq<Node>,
    deps: Seq<(Handle, Handle)>,
    frames: Seq<(Handle, Seq<Handle>)>,
    k: int,
    e: Handle,
)
    requires
        0 <= k < frames.len(),
        forall|m: int| 0 <= m < frames.len() - 1 ==> #[trigger] rdeps(nodes, deps, frames[m].0).contains(frames[m + 1].0),
        rdeps(nodes, deps, frames.last().0).contains(e),
    ensures
        ({
            let p = Seq::new((frames.len() - k) as nat, |m: int| frames[k + m].0).push(e);
            &&& p.len() >= 2
            &&& p[0] == frames[k].0
            &&& p.last() == e
            &&& is_dep_path(nodes, deps, p)
        }),
{
    let p = Seq::new((frames.len() - k) as nat, |m: int| frames[k + m].0).push(e);
    assert forall|i: int| 0 <= i < p.len() - 1 implies #[trigger] rdeps(nodes, deps, p[i]).contains(p[i + 1]) by {
        if i < frames.len() - k - 1 {
            assert(p[i] == frames[k + i].0 && p[i + 1] == frames[k + i + 1].0);
            assert(rdeps(nodes, deps, frames[k + i].0).contains(frames[k + i + 1].0));
        } else {
            assert(p[i] == frames[frames.len() - 1].0);
        }
    }
}

/// The invariant holds to the end of the traversal.
proof fn lemma_dfs_post(
    nodes: Seq<Node>,
    deps: Seq<(Handle, Handle)>,
    target: Handle,
    frames: Seq<(Handle, Seq<Handle>)>,
    visited: Seq<Handle>,
    result: Seq<Handle>,
)
    requires
        dfs_inv(nodes, deps, target, frames, visited, result),
    ensures
        dfs_inv(
            nodes,
            deps,
            target,
            Seq::empty(),
            dfs_post(nodes, deps, frames, visited, result).0,
            dfs_post(nodes, deps, frames, visited, result).1,
        ),
        forall|v: Handle| visited.contains(v) ==> #[trigger] dfs_post(nodes, deps, frames, visited, result).0.contains(v),
    decreases unvisited_count(nodes, visited), frames.len(), if frames.len() > 0 {
        frames.last().1.len()
    } else {
        0
    },
{
    if frames.len() == 0 {
        return;
    }
    let x = frames.last().0;
    let rem = frames.last().1;
    let top = frames.len() - 1;
    if rem.len() == 0 {
        let f2 = frames.drop_last();
        let r2 = emit(nodes, result, x);
        assert forall|v: Handle| in_frames(f2, v) implies in_frames(frames, v) && v != x by {
            let k = choose|k: int| 0 <= k < f2.len() && f2[k].0 == v;
            assert(frames[k].0 == v);
        }
        assert forall|v: Handle| in_frames(frames, v) && v != x implies in_frames(f2, v) by {
            let k = choose|k: int| 0 <= k < frames.len() && frames[k].0 == v;
            assert(f2[k].0 == v);
        }
        // the dependencies of x are all visited
        assert forall|e: Handle| #[trigger] rdeps(nodes, deps, x).contains(e) implies visited.contains(e) by {
            assert(!frames[top].1.contains(e));
        }
        assert forall|i: int| 0 <= i < r2.len() implies visited.contains(#[trigger] r2[i]) && is_concrete(nodes, r2[i]) by {
            if i < result.len() {
                assert(r2[i] == result[i]);
            }
        }
        assert forall|i: int, j: int| 0 <= i < j < r2.len() implies r2[i] != r2[j] by {
            assert(r2[i] == result[i]);
            if j < result.len() {
                assert(r2[j] == result[j]);
            } else {
                assert(!result.contains(frames[top].0));
            }
        }
        assert forall|k: int| 0 <= k < f2.len() implies !r2.contains(#[trigger] f2[k].0) by {
            assert(f2[k] == frames[k]);
            assert(frames[k].0 != frames[top].0);
            assert(!result.contains(frames[k].0));
        }
        assert forall|v: Handle| visited.contains(v) && is_concrete(nodes, v) implies r2.contains(v) || in_frames(f2, v) by {
            if v == x {
                assert(r2.last() == x);
            } else if result.contains(v) {
                let i = choose|i: int| 0 <= i < result.len() && result[i] == v;
                assert(r2[i] == v);
            }
        }
        assert forall|v: Handle, e: Handle|
            visited.contains(v) && has_pid(nodes, v) && !in_frames(f2, v) && #[trigger] rdeps(nodes, deps, v).contains(e)
            implies visited.contains(e) by {
            if v != x {
                assert(!in_frames(frames, v));
            }
        }
        assert forall|k: int, e: Handle| 0 <= k < f2.len() && #[trigger] f2[k].1.contains(e) implies rdeps(
            nodes,
            deps,
            f2[k].0,
        ).contains(e) by {
            assert(f2[k] == frames[k]);
        }
        assert forall|k: int, e: Handle|
            0 <= k < f2.len() && #[trigger] rdeps(nodes, deps, f2[k].0).contains(e) implies visited.contains(e)
                || f2[k].1.contains(e) by {
            assert(f2[k] == frames[k]);
        }
        assert forall|k: int| 0 <= k < f2.len() - 1 implies #[trigger] rdeps(nodes, deps, f2[k].0).contains(f2[k + 1].0) by {
            assert(f2[k] == frames[k] && f2[k + 1] == frames[k + 1]);
        }
        if acyclic(nodes, deps) && is_concrete(nodes, x) {
            assert forall|i: int, e: Handle|
                0 <= i < r2.len() && #[trigger] rdeps(nodes, deps, r2[i]).contains(e) implies exists|j: int|
                0 <= j < i && r2[j] == e by {
                if i < result.len() {
                    assert(r2[i] == result[i]);
                    let j = choose|j: int| 0 <= j < i && result[j] == e;
                    assert(r2[j] == e);
                } else {
                    assert(r2[i] == x);
                    assert(visited.contains(e));
                    lemma_rdeps_concrete(nodes, deps, x, e);
                    if !result.contains(e) {
                        assert(in_frames(frames, e));
                        let k = choose|k: int| 0 <= k < frames.len() && frames[k].0 == e;
                        lemma_frames_path(nodes, deps, frames, k, e);
                        let p = Seq::new((frames.len() - k) as nat, |m: int| frames[k + m].0).push(e);
                        assert(is_dep_path(nodes, deps, p));
                        assert(false);
                    }
                    let j = choose|j: int| 0 <= j < result.len() && result[j] == e;
                    assert(r2[j] == e);
                }
            }
        }
        lemma_dfs_post(nodes, deps, target, f2, visited, r2);
    } else {
        let d = rem[0];
        let f2 = frames.drop_last().push((x, rem.drop_first()));
        assert(f2.len() == frames.len());
        assert forall|k: int| 0 <= k < f2.len() implies #[trigger] f2[k].0 == frames[k].0 by {}
        assert forall|v: Handle| in_frames(f2, v) <==> in_frames(frames, v) by {
            if in_frames(f2, v) {
                let k = choose|k: int| 0 <= k < f2.len() && f2[k].0 == v;
                assert(frames[k].0 == v);
            }
            if in_frames(frames, v) {
                let k = choose|k: int| 0 <= k < frames.len() && frames[k].0 == v;
                assert(f2[k].0 == v);
            }
        }
        assert(rem.contains(d)) by { assert(rem[0] == d); }
        assert(frames[top].1.contains(d));
        assert(rdeps(nodes, deps, x).contains(d));
        assert forall|k: int, e: Handle| 0 <= k < f2.len() && #[trigger] f2[k].1.contains(e) implies rdeps(
            nodes,
            deps,
            f2[k].0,
        ).contains(e) by {
            if k < top {
                assert(f2[k] == frames[k]);
            } else {
                let i = choose|i: int| 0 <= i < rem.drop_first().len() && rem.drop_first()[i] == e;
                assert(rem[i + 1] == e);
                assert(frames[top].1.contains(e));
            }
        }
        assert forall|k: int, e: Handle|
            0 <= k < f2.len() && #[trigger] rdeps(nodes, deps, f2[k].0).contains(e) implies (visited.contains(e) || e == d)
                || f2[k].1.contains(e) by {
            if k < top {
                assert(f2[k] == frames[k]);
            } else {
                assert(frames[top].0 == f2[k].0);
                if frames[top].1.contains(e) && e != d {
                    let i = choose|i: int| 0 <= i < rem.len() && rem[i] == e;
                    assert(i != 0);
                    assert(rem.drop_first()[i - 1] == e);
                }
            }
        }
        assert forall|k: int| 0 <= k < f2.len() - 1 implies #[trigger] rdeps(nodes, deps, f2[k].0).contains(f2[k + 1].0) by {
            assert(f2[k].0 == frames[k].0 && f2[k + 1].0 == frames[k + 1].0);
        }
        if visited.contains(d) {
            lemma_dfs_post(nodes, deps, target, f2, visited, result);
        } else {
            let v2 = visited.push(d);
            lemma_push_superset(visited, d);
            lemma_count_mono(nodes, visited, v2);
            assert(reaches(nodes, deps, target, x));
            lemma_reach_step(nodes, deps, target, x, d);
            assert forall|v: Handle| #[trigger] v2.contains(v) implies reaches(nodes, deps, target, v) by {
                if v != d {
                    assert(visited.contains(v));
                }
            }
            lemma_rdeps_concrete(nodes, deps, x, d);
            lemma_first_index_exists(nodes, d);
            lemma_count_strict(nodes, visited, v2, pid_index(nodes, d));
            let f3 = f2.push((d, rdeps(nodes, deps, d)));
            assert forall|v: Handle| in_frames(f3, v) <==> in_frames(frames, v) || v == d by {
                if in_frames(f3, v) {
                    let k = choose|k: int| 0 <= k < f3.len() && f3[k].0 == v;
                    if k < f2.len() {
                        assert(f2[k].0 == v);
                    }
                }
                if in_frames(frames, v) {
                    let k = choose|k: int| 0 <= k < frames.len() && frames[k].0 == v;
                    assert(f3[k].0 == v);
                }
                if v == d {
                    assert(f3[f2.len() as int].0 == d);
                }
            }
            assert forall|i: int| 0 <= i < result.len() implies v2.contains(#[trigger] result[i]) by {}
            assert forall|k: int| 0 <= k < f3.len() implies v2.contains(#[trigger] f3[k].0) && has_pid(nodes, f3[k].0)
                && !result.contains(f3[k].0) by {
                if k < f2.len() {
                    assert(f3[k].0 == frames[k].0);
                }
            }
            assert forall|k: int, l: int| 0 <= k < l < f3.len() implies f3[k].0 != f3[l].0 by {
                if l < f2.len() {
                    assert(f3[k].0 == frames[k].0 && f3[l].0 == frames[l].0);
                } else {
                    assert(f3[k].0 == frames[k].0);
                }
            }
            assert forall|k: int, e: Handle| 0 <= k < f3.len() && #[trigger] f3[k].1.contains(e) implies rdeps(
                nodes,
                deps,
                f3[k].0,
            ).contains(e) by {
                if k < f2.len() {
                    assert(f3[k] == f2[k]);
                }
            }
            assert forall|k: int, e: Handle|
                0 <= k < f3.len() && #[trigger] rdeps(nodes, deps, f3[k].0).contains(e) implies v2.contains(e)
                    || f3[k].1.contains(e) by {
                if k < f2.len() {
                    assert(f3[k] == f2[k]);
                }
            }
            assert forall|k: int| 0 <= k < f3.len() - 1 implies #[trigger] rdeps(nodes, deps, f3[k].0).contains(f3[k + 1].0) by {
                if k + 1 < f2.len() {
                    assert(f3[k] == f2[k] && f3[k + 1] == f2[k + 1]);
                } else {
                    assert(f3[k].0 == x);
                }
            }
            assert forall|v: Handle| v2.contains(v) && is_concrete(nodes, v) implies result.contains(v) || in_frames(f3, v) by {
                if v != d {
                    assert(visited.contains(v));
                }
            }
            assert forall|v: Handle, e: Handle|
                v2.contains(v) && has_pid(nodes, v) && !in_frames(f3, v) && #[trigger] rdeps(nodes, deps, v).contains(e)
                implies v2.contains(e) by {
                assert(visited.contains(v));
            }
            if has_pid(nodes, d) {
                lemma_dfs_post(nodes, deps, target, f3, v2, result);
            }
        }
    }
}

/// Facts about the order that the invariant gives at the end of the traversal.
proof fn lemma_build_order(dag: Dag, target: Handle)
    ensures
        has_pid(dag.nodes(), target) ==> dfs_inv(
            dag.nodes(),
            dag.deps(),
            target,
            Seq::empty(),
            dfs_post(
                dag.nodes(),
                dag.deps(),
                seq![(target, rdeps(dag.nodes(), dag.deps(), target))],
                seq![target],
                Seq::empty(),
            ).0,
            build_order_spec(dag, target),
        ),
        has_pid(dag.nodes(), target) ==> dfs_post(
            dag.nodes(),
            dag.deps(),
            seq![(target, rdeps(dag.nodes(), dag.deps(), target))],
            seq![target],
            Seq::empty(),
        ).0.contains(target),
{
    let nodes = dag.nodes();
    let deps = dag.deps();
    if has_pid(nodes, target) {
        let frames = seq![(target, rdeps(nodes, deps, target))];
        let visited = seq![target];
        let result = Seq::<Handle>::empty();
        assert(frames.len() == 1 && frames[0].0 == target && frames[0].1 == rdeps(nodes, deps, target));
        assert(visited.contains(target)) by {
            assert(visited[0] == target);
        }
        assert forall|v: Handle| #[trigger] visited.contains(v) implies reaches(nodes, deps, target, v) by {
            assert(visited[0] == target);
            let p = seq![target];
            assert(is_dep_path(nodes, deps, p));
        }
        assert forall|v: Handle| visited.contains(v) && is_concrete(nodes, v) implies result.contains(v) || in_frames(frames, v) by {
            assert(frames[0].0 == target);
        }
        assert forall|v: Handle, e: Handle|
            visited.contains(v) && has_pid(nodes, v) && !in_frames(frames, v) && #[trigger] rdeps(nodes, deps, v).contains(e)
            implies visited.contains(e) by {
            assert(frames[0].0 == target);
        }
        lemma_dfs_post(nodes, deps, target, frames, visited, result);
    }
}

/// Whether every element of `s` is a concrete node and no element repeats.
pub open spec fn distinct_concrete(nodes: Seq<Node>, s: Seq<Handle>) -> bool {
    &&& forall|i: int| 0 <= i < s.len() ==> (lookup(nodes, #[trigger] s[i]) matches Some(n) && n.kind == NodeKind::Concrete)
    &&& forall|i: int, j: int| 0 <= i < j < s.len() ==> s[i] != s[j]
}

/// Law: the order built for a target holds exactly the concrete nodes reached from it
/// through resolved dependencies (the target included), each once; and when the
/// dependencies form no cycle, every resolved dependency of a node comes before it.
pub proof fn lemma_build_order_topological(dag: Dag, target: Handle)
    ensures
        distinct_concrete(dag.nodes(), build_order_spec(dag, target)),
        forall|h: Handle|
            build_order_spec(dag, target).contains(h) <==> has_pid(dag.nodes(), target) && is_concrete(dag.nodes(), h)
                && reaches(dag.nodes(), dag.deps(), target, h),
        acyclic(dag.nodes(), dag.deps()) ==> dependencies_first(dag.nodes(), dag.deps(), build_order_spec(dag, target)),
{
    let nodes = dag.nodes();
    let deps = dag.deps();
    let o = build_order_spec(dag, target);
    lemma_build_order(dag, target);
    if has_pid(nodes, target) {
        let fin = dfs_post(nodes, deps, seq![(target, rdeps(nodes, deps, target))], seq![target], Seq::empty());
        let vis = fin.0;
        assert forall|i: int| 0 <= i < o.len() implies (lookup(nodes, #[trigger] o[i]) matches Some(n) && n.kind
            == NodeKind::Concrete) by {
            assert(is_concrete(nodes, o[i]));
        }
        assert(!in_frames(Seq::<(Handle, Seq<Handle>)>::empty(), target));
        assert forall|h: Handle|
            o.contains(h) <==> is_concrete(nodes, h) && reaches(nodes, deps, target, h) by {
            if o.contains(h) {
                let i = choose|i: int| 0 <= i < o.len() && o[i] == h;
                assert(vis.contains(o[i]) && is_concrete(nodes, o[i]));
            }
            if is_concrete(nodes, h) && reaches(nodes, deps, target, h) {
                let p = choose|p: Seq<Handle>| p.len() >= 1 && p[0] == target && p.last() == h && #[trigger] is_dep_path(nodes, deps, p);
                lemma_path_visited(nodes, deps, vis, p);
                assert(!in_frames(Seq::<(Handle, Seq<Handle>)>::empty(), h));
            }
        }
    } else {
        assert forall|h: Handle| !o.contains(h) by {}
    }
}

/// Along a path whose first handle is a visited node, with every visited node's
/// dependencies visited, every handle of the path is visited.
proof fn lemma_path_visited(nodes: Seq<Node>, deps: Seq<(Handle, Handle)>, vis: Seq<Handle>, p: Seq<Handle>)
    requires
        p.len() >= 1,
        vis.contains(p[0]),
        has_pid(nodes, p[0]),
        is_dep_path(nodes, deps, p),
        forall|v: Handle, e: Handle|
            vis.contains(v) && has_pid(nodes, v) && !in_frames(Seq::<(Handle, Seq<Handle>)>::empty(), v)
                && #[trigger] rdeps(nodes, deps, v).contains(e) ==> vis.contains(e),
    ensures
        vis.contains(p.last()),
    decreases p.len(),
{
    if p.len() > 1 {
        let q = p.drop_last();
        assert forall|i: int| 0 <= i < q.len() - 1 implies #[trigger] rdeps(nodes, deps, q[i]).contains(q[i + 1]) by {
            assert(rdeps(nodes, deps, p[i]).contains(p[i + 1]));
        }
        lemma_path_visited(nodes, deps, vis, q);
        let i = p.len() - 2;
        assert(rdeps(nodes, deps, p[i]).contains(p[i + 1]));
        assert(q.last() == p[i]);
        if i > 0 {
            let j = i - 1;
            assert(rdeps(nodes, deps, p[j]).contains(p[j + 1]));
            lemma_rdeps_concrete(nodes, deps, p[j], p[j + 1]);
        }
        assert(!in_frames(Seq::<(Handle, Seq<Handle>)>::empty(), p[i]));
    }
}

/// The part of `order` that iteration yields under the stop conditions.
pub open spec fn stop_cut(order: Seq<Handle>, stop: StopConditions) -> Seq<Handle>
    decreases order.len(),
{
    if order.len() == 0 {
        Seq::empty()
    } else {
        let n = order[0];
        if stop.stop_before == Some(n) {
            Seq::empty()
        } else if stop.one_step || stop.stop_after == Some(n) {
            seq![n]
        } else {
            seq![n] + stop_cut(order.drop_first(), stop)
        }
    }
}

/// The nodes that scheduling `target` under `stop` yields, in order.
pub open spec fn scheduled(dag: Dag, target: Handle, stop: StopConditions) -> Seq<Handle> {
    stop_cut(build_order_spec(dag, target), stop)
}

proof fn lemma_stop_cut_none(order: Seq<Handle>, stop: StopConditions)
    requires
        !stop.one_step,
        stop.stop_before is None,
        stop.stop_after is None,
    ensures
        stop_cut(order, stop) == order,
    decreases order.len(),
{
    if order.len() > 0 {
        lemma_stop_cut_none(order.drop_first(), stop);
        assert(seq![order[0]] + order.drop_first() =~= order);
    }
}

proof fn lemma_stop_cut_prefix(order: Seq<Handle>, stop: StopConditions)
    ensures
        exists|k: int| 0 <= k <= order.len() && stop_cut(order, stop) == order.subrange(0, k),
        stop.stop_before matches Some(b) ==> !stop_cut(order, stop).contains(b),
        stop.one_step ==> stop_cut(order, stop).len() <= 1,
    decreases order.len(),
{
    if order.len() == 0 {
        assert(stop_cut(order, stop) =~= order.subrange(0, 0));
    } else {
        let n = order[0];
        if stop.stop_before == Some(n) {
            assert(stop_cut(order, stop) =~= order.subrange(0, 0));
        } else if stop.one_step || stop.stop_after == Some(n) {
            assert(stop_cut(order, stop) =~= order.subrange(0, 1));
        } else {
            lemma_stop_cut_prefix(order.drop_first(), stop);
            let k = choose|k: int| 0 <= k <= order.drop_first().len()
                && stop_cut(order.drop_first(), stop) == order.drop_first().subrange(0, k);
            assert(stop_cut(order, stop) =~= order.subrange(0, k + 1));
            if let Some(b) = stop.stop_before {
                assert(!stop_cut(order.drop_first(), stop).contains(b));
                if stop_cut(order, stop).contains(b) {
                    let i = choose|i: int| 0 <= i < stop_cut(order, stop).len() && stop_cut(order, stop)[i] == b;
                    if i > 0 {
                        assert(stop_cut(order.drop_first(), stop)[i - 1] == b);
                    }
                }
            }
        }
    }
}

/// Law: scheduling yields concrete nodes reached from the target, each at most once;
/// without stop conditions it yields every concrete node reached from the target (when
/// the target is a node of the DAG);
/// when the dependencies form no cycle, every resolved dependency of a yielded node is
/// yielded before it; a `stop_before` node is never yielded; with `one_step` at most one
/// node is yielded.
pub proof fn lemma_scheduled_distinct_concrete(dag: Dag, target: Handle, stop: StopConditions)
    ensures
        distinct_concrete(dag.nodes(), scheduled(dag, target, stop)),
        forall|h: Handle| scheduled(dag, target, stop).contains(h) ==> is_concrete(dag.nodes(), h) && reaches(
            dag.nodes(),
            dag.deps(),
            target,
            h,
        ),
        acyclic(dag.nodes(), dag.deps()) ==> dependencies_first(dag.nodes(), dag.deps(), scheduled(dag, target, stop)),
        stop.stop_before matches Some(b) ==> !scheduled(dag, target, stop).contains(b),
        stop.one_step ==> scheduled(dag, target, stop).len() <= 1,
        !stop.one_step && stop.stop_before is None && stop.stop_after is None ==> forall|h: Handle|
            scheduled(dag, target, stop).contains(h) <==> has_pid(dag.nodes(), target) && is_concrete(dag.nodes(), h)
                && reaches(dag.nodes(), dag.deps(), target, h),
{
    let nodes = dag.nodes();
    let o = build_order_spec(dag, target);
    lemma_build_order_topological(dag, target);
    lemma_stop_cut_prefix(o, stop);
    let k = choose|k: int| 0 <= k <= o.len() && stop_cut(o, stop) == o.subrange(0, k);
    let c = stop_cut(o, stop);
    assert forall|i: int| 0 <= i < c.len() implies (lookup(nodes, #[trigger] c[i]) matches Some(n) && n.kind == NodeKind::Concrete) by {
        assert(c[i] == o[i]);
    }
    assert forall|i: int, j: int| 0 <= i < j < c.len() implies c[i] != c[j] by {
        assert(c[i] == o[i]);
        assert(c[j] == o[j]);
    }
    assert forall|h: Handle| c.contains(h) implies is_concrete(nodes, h) && reaches(nodes, dag.deps(), target, h) by {
        let i = choose|i: int| 0 <= i < c.len() && c[i] == h;
        assert(o[i] == h);
        assert(o.contains(h));
    }
    if acyclic(nodes, dag.deps()) {
        assert forall|i: int, e: Handle|
            0 <= i < c.len() && #[trigger] rdeps(nodes, dag.deps(), c[i]).contains(e) implies exists|j: int|
            0 <= j < i && c[j] == e by {
            assert(c[i] == o[i]);
            let j = choose|j: int| 0 <= j < i && o[j] == e;
            assert(c[j] == e);
        }
    }
    if !stop.one_step && stop.stop_before is None && stop.stop_after is None {
        lemma_stop_cut_none(o, stop);
    }
}

/// Produces the nodes needed to build a target.
pub struct Scheduler<'a> {
    dag: &'a Dag,
    target: Handle,
    stop_conditions: StopConditions,
}

impl<'a> Scheduler<'a> {
    /// The DAG being scheduled.
    pub closed spec fn dag(self) -> Dag {
        *self.dag
    }

    /// The node to build.
    pub closed spec fn target(self) -> Handle {
        self.target
    }

    /// The stop conditions.
    pub closed spec fn stop_conditions(self) -> StopConditions {
        self.stop_conditions
    }

    /// A scheduler for `target` without stop conditions.
    pub fn new(dag: &'a Dag, target: Handle) -> (s: Self)
        ensures
            s.dag() == *dag,
            s.target() == target,
            !s.stop_conditions().one_step,
            s.stop_conditions().stop_before is None,
            s.stop_conditions().stop_after is None,
    {
        Self { dag, target, stop_conditions: StopConditions::default() }
    }

    /// A scheduler for `target` with the given stop conditions.
    pub fn with_stop_conditions(dag: &'a Dag, target: Handle, stop_conditions: StopConditions) -> (s: Self)
        ensures
            s.dag() == *dag,
            s.target() == target,
            s.stop_conditions() == stop_conditions,
    {
        Self { dag, target, stop_conditions }
    }

    /// Iterator over the nodes needed to build the target.
    pub fn iter(&self) -> (it: SchedulerIter<'a>)
        ensures
            it.yields() == scheduled(self.dag(), self.target(), self.stop_conditions()),
            it.well_formed(),
    {
        SchedulerIter::new(self.dag, self.target, self.stop_conditions)
    }
}

/// The frames of a traversal: each node with the dependencies it has yet to explore.
pub open spec fn frames_view(f: Seq<(Handle, Vec<Handle>, usize)>) -> Seq<(Handle, Seq<Handle>)> {
    f.map_values(|e: (Handle, Vec<Handle>, usize)| (e.0, e.1@.subrange(e.2 as int, e.1@.len() as int)))
}

/// Every frame's position lies within its dependencies.
pub open spec fn frames_ok(f: Seq<(Handle, Vec<Handle>, usize)>) -> bool {
    forall|k: int| 0 <= k < f.len() ==> (#[trigger] f[k]).2 <= f[k].1@.len()
}

/// Iterator over a built order, honoring stop conditions.
pub struct SchedulerIter<'a> {
    dag: &'a Dag,
    frames: Vec<(Handle, Vec<Handle>, usize)>,
    visited: Vec<Handle>,
    result: Vec<Handle>,
    done: bool,
    result_index: usize,
    stopped: bool,
    stop_conditions: StopConditions,
}

impl<'a> SchedulerIter<'a> {
    /// What the remaining calls of `next` yield.
    pub closed spec fn yields(self) -> Seq<Handle> {
        if self.stopped {
            Seq::empty()
        } else {
            stop_cut(self.result@.subrange(self.result_index as int, self.result@.len() as int), self.stop_conditions)
        }
    }

    /// The read position lies within the built order.
    pub closed spec fn well_formed(self) -> bool {
        self.result_index <= self.result@.len()
    }

    fn new(dag: &'a Dag, target: Handle, stop_conditions: StopConditions) -> (it: Self)
        ensures
            it.yields() == stop_cut(build_order_spec(*dag, target), stop_conditions),
            it.well_formed(),
    {
        let mut it = Self {
            dag,
            frames: Vec::new(),
            visited: Vec::new(),
            result: Vec::new(),
            done: false,
            result_index: 0,
            stopped: false,
            stop_conditions,
        };
        it.build_order(target);
        proof {
            assert(it.result@.subrange(0, it.result@.len() as int) =~= it.result@);
        }
        it
    }

    /// Build the full topological order: a depth-first traversal from the target that
    /// places each node after its dependencies. Only concrete nodes are included;
    /// aliases are traversed but not yielded.
    fn build_order(&mut self, target: Handle)
        requires
            old(self).frames@ == Seq::<(Handle, Vec<Handle>, usize)>::empty(),
            old(self).visited@ == Seq::<Handle>::empty(),
            old(self).result@ == Seq::<Handle>::empty(),
        ensures
            final(self).result@ == build_order_spec(*old(self).dag, target),
            final(self).dag == old(self).dag,
            final(self).result_index == old(self).result_index,
            final(self).stopped == old(self).stopped,
            final(self).stop_conditions == old(self).stop_conditions,
            final(self).done,
    {
        let ghost nodes = self.dag.nodes();
        let ghost deps = self.dag.deps();
        if self.dag.get_node(target).is_none() {
            self.done = true;
            return;
        }
        let first = self.dag.collect_resolved(target);
        self.visited.push(target);
        self.frames.push((target, first, 0));
        proof {
            assert(first@.subrange(0, first@.len() as int) =~= first@);
            assert(frames_view(self.frames@) =~= seq![(target, rdeps(nodes, deps, target))]);
            assert(self.visited@ =~= seq![target]);
        }
        let ghost goal = dfs_post(nodes, deps, frames_view(self.frames@), self.visited@, self.result@).1;
        assert(goal == build_order_spec(*self.dag, target));
        while self.frames.len() > 0
            invariant
                nodes == self.dag.nodes(),
                deps == self.dag.deps(),
                frames_ok(self.frames@),
                dfs_post(nodes, deps, frames_view(self.frames@), self.visited@, self.result@).1 == goal,
                goal == build_order_spec(*old(self).dag, target),
                self.dag == old(self).dag,
                self.result_index == old(self).result_index,
                self.stopped == old(self).stopped,
                self.stop_conditions == old(self).stop_conditions,
            decreases unvisited_count(nodes, self.visited@), self.frames@.len(), if self.frames@.len() > 0 {
                frames_view(self.frames@).last().1.len()
            } else {
                0
            },
        {
            let ghost f0 = self.frames@;
            let ghost fv0 = frames_view(f0);
            let ghost v0 = self.visited@;
            let (x, ds, i) = self.frames.pop().unwrap();
            proof {
                assert(self.frames@ =~= f0.drop_last());
                assert(frames_view(self.frames@) =~= fv0.drop_last());
                assert(f0[f0.len() - 1] == (x, ds, i));
                assert(fv0.last() == (x, ds@.subrange(i as int, ds@.len() as int)));
            }
            if i >= ds.len() {
                match self.dag.get_node(x) {
                    Some(n) => {
                        if n.kind == NodeKind::Concrete {
                            self.result.push(x);
                        }
                    },
                    None => {},
                }
            } else {
                let d = ds[i];
                self.frames.push((x, ds, i + 1));
                proof {
                    let rem = fv0.last().1;
                    assert(rem[0] == d);
                    assert(rem.drop_first() =~= ds@.subrange(i + 1, ds@.len() as int));
                    assert(frames_view(self.frames@) =~= fv0.drop_last().push((x, rem.drop_first())));
                }
                if !contains_handle(&self.visited, d) {
                    self.visited.push(d);
                    proof {
                        lemma_push_superset(v0, d);
                        lemma_count_mono(nodes, v0, self.visited@);
                    }
                    if self.dag.get_node(d).is_some() {
                        proof {
                            lemma_first_index_exists(nodes, d);
                            lemma_count_strict(nodes, v0, self.visited@, pid_index(nodes, d));
                        }
                        let ghost f1 = self.frames@;
                        let dd = self.dag.collect_resolved(d);
                        self.frames.push((d, dd, 0));
                        proof {
                            assert(dd@.subrange(0, dd@.len() as int) =~= dd@);
                            assert(frames_view(self.frames@) =~= frames_view(f1).push((d, rdeps(nodes, deps, d))));
                        }
                    }
                }
            }
        }
        self.done = true;
    }

    /// The next node to run, if any.
    pub fn next(&mut self) -> (r: Option<Handle>)
        requires
            old(self).well_formed(),
        ensures
            final(self).well_formed(),
            old(self).yields().len() == 0 ==> r is None && final(self).yields().len() == 0,
            old(self).yields().len() > 0 ==> r == Some(old(self).yields()[0])
                && final(self).yields() == old(self).yields().drop_first(),
    {
        if self.stopped || self.result_index >= self.result.len() {
            return None;
        }
        let node = self.result[self.result_index];
        let ghost rest = self.result@.subrange(self.result_index as int, self.result@.len() as int);
        assert(rest[0] == node);
        assert(rest.drop_first() =~= self.result@.subrange(self.result_index + 1, self.result@.len() as int));
        if self.stop_conditions.stop_before == Some(node) {
            self.stopped = true;
            return None;
        }
        self.result_index = self.result_index + 1;
        if self.stop_conditions.one_step {
            self.stopped = true;
        }
        if self.stop_conditions.stop_after == Some(node) {
            self.stopped = true;
        }
        Some(node)
    }
}

} // verus!
