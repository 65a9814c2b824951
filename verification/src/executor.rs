//! Decisions of the executor: which pending nodes are ready to spawn, what a
//! spawn round does to the DAG, which nodes a failed dependency blocks, how
//! lifecycle reports change node states, and what a job adds to the pending set.
//!
//! The executor's event loop (receiving jobs, waking on state changes, running
//! actor tasks) performs these decisions' actions.

use vstd::prelude::*;
use vstd::string::StringExecFns;

use crate::dag::{Dag, Node, NodeState, lemma_replace_lookup, lookup, has_pid, lemma_first_index_exists};
use crate::errno::ENOENT;
use crate::idgen::Handle;
use crate::pipe::{entry_state, PipePool, WriterState};
use crate::registry::ActorRegistry;
use crate::resolve::resolved;
use crate::scheduler::{scheduled, Scheduler, StopConditions};
use crate::text::decimal_int;

verus! {

broadcast use Handle::lemma_handle_ext;

/// Events emitted by the executor to report progress to the caller.
#[derive(Debug, Clone, Copy, PartialEq, Eq, Structural)]
pub enum ExecutorEvent {
    /// A node has finished executing (successfully or not).
    NodeTerminated(Handle),
}

/// Whether a node can be spawned now.
#[derive(Debug, Clone, Copy, PartialEq, Eq, Structural)]
pub enum SpawnReadiness {
    Ready,
    Waiting,
    FailedDependency(Handle),
}

/// The fd of a node's output pipe (stdout).
pub const OUTPUT_FD: isize = 1;

/// Whether dependency `dep` has output: its stdout pipe is realized.
pub open spec fn has_output(entries: Seq<(Handle, isize, WriterState)>, dep: Handle) -> bool {
    entry_state(entries, (dep, OUTPUT_FD)) matches Some(WriterState::Realized(_))
}

/// Readiness by the decision table, over the resolved dependencies in order:
/// the first decisive dependency wins; all exhausted means ready.
pub open spec fn readiness_of(deps: Seq<Handle>, dag: Dag, entries: Seq<(Handle, isize, WriterState)>) -> SpawnReadiness
    decreases deps.len(),
{
    if deps.len() == 0 {
        SpawnReadiness::Ready
    } else {
        let d = deps[0];
        let rest = readiness_of(deps.drop_first(), dag, entries);
        match dag.node(d) {
            None => rest,
            Some(n) => match n.state {
                NodeState::NotStarted => SpawnReadiness::Waiting,
                NodeState::Running | NodeState::Terminating => if has_output(entries, d) {
                    SpawnReadiness::Ready
                } else {
                    SpawnReadiness::Waiting
                },
                NodeState::Terminated => if n.exit_code != 0 {
                    SpawnReadiness::FailedDependency(d)
                } else if has_output(entries, d) {
                    SpawnReadiness::Ready
                } else {
                    rest
                },
            },
        }
    }
}

/// The readiness of `node` in `dag` with the pipes of `pool`.
pub open spec fn readiness(node: Handle, dag: Dag, pool: PipePool) -> SpawnReadiness {
    readiness_of(resolved(dag, node), dag, pool.entries())
}

/// Whether dependency `d` leaves the decision to the dependencies after it: it is not a
/// node of the DAG, or it terminated cleanly (exit code 0) without an output pipe.
pub open spec fn neutral_dependency(dag: Dag, entries: Seq<(Handle, isize, WriterState)>, d: Handle) -> bool {
    match dag.node(d) {
        None => true,
        Some(n) => n.state == NodeState::Terminated && n.exit_code == 0 && !has_output(entries, d),
    }
}

/// What a dependency that decides says: not started means wait; running or terminating
/// means ready once its output pipe exists, else wait; terminated with a non-zero exit
/// code means that dependency failed; terminated cleanly (with output) means ready.
pub open spec fn dependency_verdict(dag: Dag, entries: Seq<(Handle, isize, WriterState)>, d: Handle) -> SpawnReadiness {
    match dag.node(d) {
        None => SpawnReadiness::Ready,
        Some(n) => match n.state {
            NodeState::NotStarted => SpawnReadiness::Waiting,
            NodeState::Running | NodeState::Terminating => if has_output(entries, d) {
                SpawnReadiness::Ready
            } else {
                SpawnReadiness::Waiting
            },
            NodeState::Terminated => if n.exit_code != 0 {
                SpawnReadiness::FailedDependency(d)
            } else {
                SpawnReadiness::Ready
            },
        },
    }
}

/// Law: the first dependency (in resolution order) that is not neutral decides the
/// readiness, by its own state and output alone, whatever the dependencies after it
/// are; when every dependency is neutral, the node is ready.
pub proof fn lemma_readiness_first_decisive(deps: Seq<Handle>, dag: Dag, entries: Seq<(Handle, isize, WriterState)>)
    ensures
        (forall|i: int| 0 <= i < deps.len() ==> neutral_dependency(dag, entries, #[trigger] deps[i])) ==> readiness_of(
            deps,
            dag,
            entries,
        ) == SpawnReadiness::Ready,
        forall|k: int|
            0 <= k < deps.len() && (forall|j: int| 0 <= j < k ==> neutral_dependency(dag, entries, #[trigger] deps[j]))
                && !neutral_dependency(dag, entries, #[trigger] deps[k]) ==> readiness_of(deps, dag, entries)
                == dependency_verdict(dag, entries, deps[k]),
    decreases deps.len(),
{
    if deps.len() > 0 {
        let d = deps[0];
        let tail = deps.drop_first();
        lemma_readiness_first_decisive(tail, dag, entries);
        if neutral_dependency(dag, entries, d) {
            assert(readiness_of(deps, dag, entries) == readiness_of(tail, dag, entries));
            if forall|i: int| 0 <= i < deps.len() ==> neutral_dependency(dag, entries, #[trigger] deps[i]) {
                assert forall|i: int| 0 <= i < tail.len() implies neutral_dependency(dag, entries, #[trigger] tail[i]) by {
                    assert(tail[i] == deps[i + 1]);
                }
            }
            assert forall|k: int|
                0 <= k < deps.len() && (forall|j: int| 0 <= j < k ==> neutral_dependency(dag, entries, #[trigger] deps[j]))
                    && !neutral_dependency(dag, entries, #[trigger] deps[k]) implies readiness_of(deps, dag, entries)
                == dependency_verdict(dag, entries, deps[k]) by {
                assert(k != 0);
                assert(tail[k - 1] == deps[k]);
                assert forall|j: int| 0 <= j < k - 1 implies neutral_dependency(dag, entries, #[trigger] tail[j]) by {
                    assert(tail[j] == deps[j + 1]);
                }
            }
        } else {
            assert(readiness_of(deps, dag, entries) == dependency_verdict(dag, entries, d));
            assert forall|k: int|
                0 <= k < deps.len() && (forall|j: int| 0 <= j < k ==> neutral_dependency(dag, entries, #[trigger] deps[j]))
                    && !neutral_dependency(dag, entries, #[trigger] deps[k]) implies readiness_of(deps, dag, entries)
                == dependency_verdict(dag, entries, deps[k]) by {
                if k > 0 {
                    assert(neutral_dependency(dag, entries, deps[0]));
                }
            }
        }
    }
}

/// Law: a node is ready to spawn when its first resolved dependency terminated cleanly
/// and has its output pipe, whatever its other dependencies are; it waits when its first
/// non-neutral dependency has not started; it is blocked by its first non-neutral
/// dependency when that one failed; and it is ready when all its dependencies are
/// neutral (none, or all finished cleanly without output).
pub proof fn lemma_readiness(node: Handle, dag: Dag, pool: PipePool)
    ensures
        ({
            let deps = resolved(dag, node);
            let e = pool.entries();
            &&& (forall|i: int| 0 <= i < deps.len() ==> neutral_dependency(dag, e, #[trigger] deps[i])) ==> readiness(
                node,
                dag,
                pool,
            ) == SpawnReadiness::Ready
            &&& forall|k: int|
                0 <= k < deps.len() && (forall|j: int| 0 <= j < k ==> neutral_dependency(dag, e, #[trigger] deps[j]))
                    && !neutral_dependency(dag, e, #[trigger] deps[k]) ==> readiness(node, dag, pool)
                    == dependency_verdict(dag, e, deps[k])
            &&& deps.len() > 0 && (dag.node(deps[0]) matches Some(n) && n.state == NodeState::Terminated && n.exit_code == 0
                && has_output(e, deps[0])) ==> readiness(node, dag, pool) == SpawnReadiness::Ready
        }),
{
    let deps = resolved(dag, node);
    lemma_readiness_first_decisive(deps, dag, pool.entries());
    if deps.len() > 0 {
        assert(forall|j: int| 0 <= j < 0 ==> neutral_dependency(dag, pool.entries(), #[trigger] deps[j]));
    }
}

/// Decide whether a node is ready to be spawned.
///
/// | Dep state                      | Has output | Decision              |
/// |--------------------------------|------------|-----------------------|
/// | `NotStarted`                   | —          | `Waiting`             |
/// | Running / Terminating          | yes        | `Ready`               |
/// | Running / Terminating          | no         | `Waiting`             |
/// | Terminated, `exit_code` != 0   | —          | `FailedDependency`    |
/// | Terminated, `exit_code` == 0   | yes        | `Ready`               |
/// | Terminated, `exit_code` == 0   | no         | skip (neutral)        |
/// | (all deps exhausted)           | —          | `Ready`               |
pub fn is_ready_to_spawn(node_handle: Handle, dag: &Dag, pipe_pool: &PipePool) -> (r: SpawnReadiness)
    requires
        pipe_pool.wf(),
    ensures
        r == readiness(node_handle, *dag, *pipe_pool),
        ({
            let deps = resolved(*dag, node_handle);
            let e = pipe_pool.entries();
            &&& (forall|i: int| 0 <= i < deps.len() ==> neutral_dependency(*dag, e, #[trigger] deps[i])) ==> r
                == SpawnReadiness::Ready
            &&& forall|k: int|
                0 <= k < deps.len() && (forall|j: int| 0 <= j < k ==> neutral_dependency(*dag, e, #[trigger] deps[j]))
                    && !neutral_dependency(*dag, e, #[trigger] deps[k]) ==> r == dependency_verdict(*dag, e, deps[k])
        }),
{
    proof {
        lemma_readiness(node_handle, *dag, *pipe_pool);
    }
    let deps = dag.collect_resolved(node_handle);
    let ghost all = deps@;
    let mut i: usize = 0;
    assert(all.subrange(0, all.len() as int) =~= all);
    while i < deps.len()
        invariant
            deps@ == all,
            all == resolved(*dag, node_handle),
            pipe_pool.wf(),
            i <= all.len(),
            readiness_of(all, *dag, pipe_pool.entries()) == readiness_of(
                all.subrange(i as int, all.len() as int),
                *dag,
                pipe_pool.entries(),
            ),
            (forall|i: int| 0 <= i < all.len() ==> neutral_dependency(*dag, pipe_pool.entries(), #[trigger] all[i]))
                ==> readiness(node_handle, *dag, *pipe_pool) == SpawnReadiness::Ready,
            forall|k: int|
                0 <= k < all.len() && (forall|j: int| 0 <= j < k ==> neutral_dependency(*dag, pipe_pool.entries(), #[trigger] all[j]))
                    && !neutral_dependency(*dag, pipe_pool.entries(), #[trigger] all[k]) ==> readiness(node_handle, *dag, *pipe_pool)
                    == dependency_verdict(*dag, pipe_pool.entries(), all[k]),
        decreases all.len() - i,
    {
        let dep = deps[i];
        let ghost tail = all.subrange(i as int, all.len() as int);
        assert(tail[0] == dep);
        assert(tail.drop_first() =~= all.subrange(i + 1, all.len() as int));
        match dag.get_node(dep) {
            None => {},
            Some(dep_node) => {
                match dep_node.state {
                    NodeState::NotStarted => {
                        return SpawnReadiness::Waiting;
                    },
                    NodeState::Running | NodeState::Terminating => {
                        return if pipe_pool.get_already_realized_writer((dep, OUTPUT_FD)).is_some() {
                            SpawnReadiness::Ready
                        } else {
                            SpawnReadiness::Waiting
                        };
                    },
                    NodeState::Terminated => {
                        if dep_node.exit_code != 0 {
                            return SpawnReadiness::FailedDependency(dep);
                        }
                        if pipe_pool.get_already_realized_writer((dep, OUTPUT_FD)).is_some() {
                            return SpawnReadiness::Ready;
                        }
                    },
                }
            },
        }
        i = i + 1;
    }
    SpawnReadiness::Ready
}

/// The pending nodes that are ready, in order.
pub open spec fn ready_nodes(pending: Seq<Handle>, dag: Dag, pool: PipePool) -> Seq<Handle>
    decreases pending.len(),
{
    if pending.len() == 0 {
        Seq::empty()
    } else {
        let rest = ready_nodes(pending.drop_last(), dag, pool);
        if readiness(pending.last(), dag, pool) == SpawnReadiness::Ready {
            rest.push(pending.last())
        } else {
            rest
        }
    }
}

/// The pending nodes that are not ready, in order.
pub open spec fn unready_nodes(pending: Seq<Handle>, dag: Dag, pool: PipePool) -> Seq<Handle>
    decreases pending.len(),
{
    if pending.len() == 0 {
        Seq::empty()
    } else {
        let rest = unready_nodes(pending.drop_last(), dag, pool);
        if readiness(pending.last(), dag, pool) == SpawnReadiness::Ready {
            rest
        } else {
            rest.push(pending.last())
        }
    }
}

/// The failed dependency of the first pending node that is blocked by one.
pub open spec fn first_failed(pending: Seq<Handle>, dag: Dag, pool: PipePool) -> Option<Handle>
    decreases pending.len(),
{
    if pending.len() == 0 {
        None
    } else {
        match first_failed(pending.drop_last(), dag, pool) {
            Some(d) => Some(d),
            None => match readiness(pending.last(), dag, pool) {
                SpawnReadiness::FailedDependency(d) => Some(d),
                _ => None,
            },
        }
    }
}

/// A ready node after its spawn decision: an actor that is not registered
/// terminates at once with ENOENT; a node not started starts running; a node
/// already past `NotStarted` stays as it is.
pub open spec fn after_spawn(n: Node, registered: bool) -> Node {
    if !registered {
        Node { state: NodeState::Terminated, exit_code: ENOENT, ..n }
    } else if n.state == NodeState::NotStarted {
        Node { state: NodeState::Running, ..n }
    } else {
        n
    }
}

/// The ready nodes to start, each with its actor function, in order.
pub open spec fn spawn_list<F: Copy>(ready: Seq<Handle>, dag: Dag, registry: ActorRegistry<F>) -> Seq<(Handle, F)>
    decreases ready.len(),
{
    if ready.len() == 0 {
        Seq::empty()
    } else {
        let rest = spawn_list(ready.drop_last(), dag, registry);
        let q = ready.last();
        match dag.node(q) {
            Some(n) => match registry.lookup(n.idname@) {
                Some(f) => if n.state == NodeState::NotStarted {
                    rest.push((q, f))
                } else {
                    rest
                },
                None => rest,
            },
            None => rest,
        }
    }
}

/// The node `q` after a spawn round that handled the nodes of `ready`.
pub open spec fn spawned_node<F: Copy>(old: Dag, ready: Seq<Handle>, registry: ActorRegistry<F>, q: Handle) -> Option<Node> {
    if ready.contains(q) {
        match old.node(q) {
            Some(n) => Some(after_spawn(n, registry.lookup(n.idname@) is Some)),
            None => None,
        }
    } else {
        old.node(q)
    }
}

/// Outcome of a spawn round: the nodes still pending, and the failed dependency
/// that blocks some of them, if any.
#[derive(Debug)]
pub enum SpawnOutcome {
    Pending(Vec<Handle>),
    FailedNodeDependency(Handle, Vec<Handle>),
}

proof fn lemma_ready_sub(pending: Seq<Handle>, dag: Dag, pool: PipePool)
    ensures
        forall|x: Handle| ready_nodes(pending, dag, pool).contains(x) ==> pending.contains(x),
        pending.no_duplicates() ==> ready_nodes(pending, dag, pool).no_duplicates(),
    decreases pending.len(),
{
    if pending.len() > 0 {
        let pre = pending.drop_last();
        lemma_ready_sub(pre, dag, pool);
        let r = ready_nodes(pre, dag, pool);
        assert forall|x: Handle| ready_nodes(pending, dag, pool).contains(x) implies pending.contains(x) by {
            if r.contains(x) {
                assert(pre.contains(x));
                let k = choose|k: int| 0 <= k < pre.len() && pre[k] == x;
                assert(pending[k] == x);
            } else {
                assert(x == pending.last());
                assert(pending[pending.len() - 1] == x);
            }
        }
        if pending.no_duplicates() {
            assert(pre.no_duplicates()) by {
                assert forall|i: int, j: int| 0 <= i < pre.len() && 0 <= j < pre.len() && i != j implies pre[i] != pre[j] by {
                    assert(pre[i] == pending[i] && pre[j] == pending[j]);
                }
            }
            if readiness(pending.last(), dag, pool) == SpawnReadiness::Ready {
                assert(!r.contains(pending.last())) by {
                    if r.contains(pending.last()) {
                        assert(pre.contains(pending.last()));
                        let k = choose|k: int| 0 <= k < pre.len() && pre[k] == pending.last();
                        assert(pending[k] == pending[pending.len() - 1]);
                    }
                }
                let r2 = r.push(pending.last());
                assert forall|i: int, j: int| 0 <= i < r2.len() && 0 <= j < r2.len() && i != j implies r2[i] != r2[j] by {
                    if i < r.len() && j < r.len() {
                    } else if i < r.len() {
                        assert(r.contains(r2[i]));
                    } else {
                        assert(r.contains(r2[j]));
                    }
                }
            }
        }
    }
}

/// Classify the pending nodes and start the ready ones.
///
/// The whole batch is classified against the DAG as it was; then every ready
/// node is started: its state becomes `Running` and it is returned with its
/// actor function to be spawned. A ready node whose actor is not registered is
/// marked `Terminated` with exit code ENOENT instead, so that dependents are not
/// blocked; one no longer `NotStarted` is left as it is.
///
/// Returns the nodes still pending, with the first failed dependency that
/// blocks one of them, and the nodes to spawn.
pub fn spawn_ready_actors<F: Copy>(
    pending: &Vec<Handle>,
    dag: &mut Dag,
    pool: &PipePool,
    registry: &ActorRegistry<F>,
) -> (r: (SpawnOutcome, Vec<(Handle, F)>))
    requires
        pool.wf(),
        registry.wf(),
        pending@.no_duplicates(),
    ensures
        ({
            let rem = unready_nodes(pending@, *old(dag), *pool);
            match r.0 {
                SpawnOutcome::Pending(v) => v@ == rem && first_failed(pending@, *old(dag), *pool) is None,
                SpawnOutcome::FailedNodeDependency(d, v) => v@ == rem && first_failed(pending@, *old(dag), *pool)
                    == Some(d),
            }
        }),
        r.1@ == spawn_list(ready_nodes(pending@, *old(dag), *pool), *old(dag), *registry),
        forall|q: Handle|
            #[trigger] final(dag).node(q) == spawned_node(
                *old(dag),
                ready_nodes(pending@, *old(dag), *pool),
                *registry,
                q,
            ),
        final(dag).deps() == old(dag).deps(),
        final(dag).next_id() == old(dag).next_id(),
{
    let ghost d0 = *dag;
    let mut to_spawn: Vec<Handle> = Vec::new();
    let mut remaining: Vec<Handle> = Vec::new();
    let mut failed_dependency: Option<Handle> = None;
    let mut i: usize = 0;
    while i < pending.len()
        invariant
            pool.wf(),
            d0 == *dag,
            i <= pending@.len(),
            to_spawn@ == ready_nodes(pending@.take(i as int), d0, *pool),
            remaining@ == unready_nodes(pending@.take(i as int), d0, *pool),
            failed_dependency == first_failed(pending@.take(i as int), d0, *pool),
        decreases pending@.len() - i,
    {
        let n = pending[i];
        assert(pending@.take(i + 1).drop_last() =~= pending@.take(i as int));
        assert(pending@.take(i + 1).last() == n);
        match is_ready_to_spawn(n, dag, pool) {
            SpawnReadiness::Ready => {
                to_spawn.push(n);
            },
            SpawnReadiness::Waiting => {
                remaining.push(n);
            },
            SpawnReadiness::FailedDependency(dep) => {
                remaining.push(n);
                if failed_dependency.is_none() {
                    failed_dependency = Some(dep);
                }
            },
        }
        i = i + 1;
    }
    assert(pending@.take(i as int) =~= pending@);
    let ghost ready = to_spawn@;
    proof { lemma_ready_sub(pending@, d0, *pool); }
    let mut spawns: Vec<(Handle, F)> = Vec::new();
    let mut j: usize = 0;
    while j < to_spawn.len()
        invariant
            ready == to_spawn@,
            ready == ready_nodes(pending@, d0, *pool),
            ready.no_duplicates(),
            registry.wf(),
            j <= ready.len(),
            spawns@ == spawn_list(ready.take(j as int), d0, *registry),
            forall|q: Handle| #[trigger] dag.node(q) == spawned_node(d0, ready.take(j as int), *registry, q),
            dag.deps() == d0.deps(),
            dag.next_id() == d0.next_id(),
        decreases ready.len() - j,
    {
        let q = to_spawn[j];
        let ghost pre = ready.take(j as int);
        let ghost post = ready.take(j + 1);
        assert(post.drop_last() =~= pre);
        assert(post.last() == q);
        assert(!pre.contains(q)) by {
            if pre.contains(q) {
                let k = choose|k: int| 0 <= k < pre.len() && pre[k] == q;
                assert(ready[k] == ready[j as int]);
            }
        }
        assert forall|h: Handle| h != q implies post.contains(h) == pre.contains(h) by {
            if post.contains(h) {
                let k = choose|k: int| 0 <= k < post.len() && post[k] == h;
                assert(k < pre.len());
                assert(pre[k] == h);
            }
            if pre.contains(h) {
                let k = choose|k: int| 0 <= k < pre.len() && pre[k] == h;
                assert(post[k] == h);
            }
        }
        assert(post.contains(q)) by {
            assert(post[j as int] == q);
        }
        assert(dag.node(q) == d0.node(q));
        let ghost dj = *dag;
        let info = match dag.get_node(q) {
            Some(node) => {
                let st = node.state;
                let f = registry.get(node.idname.as_str());
                Some((st, f))
            },
            None => None,
        };
        match info {
            None => {
                assert forall|h: Handle| #[trigger] dag.node(h) == spawned_node(d0, post, *registry, h) by {
                    if h != q {
                        assert(dag.node(h) == spawned_node(d0, pre, *registry, h));
                    }
                }
            },
            Some((st, f)) => {
                let ghost n0 = d0.node(q)->0;
                proof { lemma_first_index_exists(dj.nodes(), q); }
                match f {
                    None => {
                        dag.set_exit_code(q, ENOENT);
                        let ghost dk = *dag;
                        proof {
                            assert forall|h: Handle| #[trigger] dk.node(h) == if h == q { Some(Node { exit_code: ENOENT, ..n0 }) } else { dj.node(h) } by {
                                lemma_replace_lookup(dj.nodes(), q, Node { exit_code: ENOENT, ..n0 }, h);
                            }
                            assert(dk.node(q) == Some(Node { exit_code: ENOENT, ..n0 }));
                            assert(has_pid(dk.nodes(), q));
                        }
                        dag.set_state(q, NodeState::Terminated);
                        proof {
                            assert forall|h: Handle| #[trigger] dag.node(h) == spawned_node(d0, post, *registry, h) by {
                                lemma_replace_lookup(dk.nodes(), q, Node { state: NodeState::Terminated, exit_code: ENOENT, ..n0 }, h);
                                assert(dk.node(q) == Some(Node { exit_code: ENOENT, ..n0 }));
                                if h != q {
                                    assert(dk.node(h) == dj.node(h));
                                    assert(dj.node(h) == spawned_node(d0, pre, *registry, h));
                                } else {
                                    assert(registry.lookup(n0.idname@) is None);
                                    assert(spawned_node(d0, post, *registry, h) == Some(after_spawn(n0, false)));
                                }
                            }
                        }
                    },
                    Some(func) => {
                        if st == NodeState::NotStarted {
                            dag.set_state(q, NodeState::Running);
                            spawns.push((q, func));
                            proof {
                                assert forall|h: Handle| #[trigger] dag.node(h) == spawned_node(d0, post, *registry, h) by {
                                    lemma_replace_lookup(dj.nodes(), q, Node { state: NodeState::Running, ..n0 }, h);
                                    if h != q {
                                        assert(dj.node(h) == spawned_node(d0, pre, *registry, h));
                                    }
                                }
                            }
                        } else {
                            assert forall|h: Handle| #[trigger] dag.node(h) == spawned_node(d0, post, *registry, h) by {
                                if h != q {
                                    assert(dag.node(h) == spawned_node(d0, pre, *registry, h));
                                }
                            }
                        }
                    },
                }
            },
        }
        j = j + 1;
    }
    assert(ready.take(j as int) =~= ready);
    let outcome = match failed_dependency {
        Some(dep) => SpawnOutcome::FailedNodeDependency(dep, remaining),
        None => SpawnOutcome::Pending(remaining),
    };
    (outcome, spawns)
}

/// Whether `n` depends (through resolution) on some node of `s`.
pub open spec fn depends_on_any(dag: Dag, n: Handle, s: Seq<Handle>) -> bool {
    exists|j: int| 0 <= j < s.len() && resolved(dag, n).contains(#[trigger] s[j])
}

/// Remove from `pending` every node blocked by `failed_dep`: the nodes that
/// depend on it, and, in turn, those that depend on a removed node.
///
/// Returns the removed nodes in the order they were found; each depends on
/// `failed_dep` or on a node removed before it, and no node left pending
/// depends on `failed_dep` or on a removed node.
#[verifier::rlimit(40)]
pub fn remove_blocked_from_pending(failed_dep: Handle, pending: &mut Vec<Handle>, dag: &Dag) -> (r: Vec<Handle>)
    requires
        old(pending)@.no_duplicates(),
    ensures
        final(pending)@.no_duplicates(),
        forall|x: Handle| final(pending)@.contains(x) ==> old(pending)@.contains(x),
        forall|x: Handle| old(pending)@.contains(x) ==> final(pending)@.contains(x) || r@.contains(x),
        forall|x: Handle| r@.contains(x) ==> old(pending)@.contains(x) && !final(pending)@.contains(x),
        forall|i: int|
            0 <= i < r@.len() ==> depends_on_any(*dag, #[trigger] r@[i], seq![failed_dep] + r@.take(i)),
        forall|x: Handle|
            final(pending)@.contains(x) ==> !depends_on_any(*dag, x, seq![failed_dep] + r@),
{
    let ghost orig = pending@;
    let mut order: Vec<Handle> = vec![failed_dep];
    let mut removed: Vec<Handle> = Vec::new();
    let mut qi: usize = 0;
    while qi < order.len()
        invariant
            order@ == seq![failed_dep] + removed@,
            qi <= order@.len(),
            pending@.no_duplicates(),
            forall|x: Handle| pending@.contains(x) ==> orig.contains(x),
            forall|x: Handle| orig.contains(x) ==> pending@.contains(x) || removed@.contains(x),
            forall|x: Handle| removed@.contains(x) ==> orig.contains(x) && !pending@.contains(x),
            forall|i: int|
                0 <= i < removed@.len() ==> depends_on_any(*dag, #[trigger] removed@[i], seq![failed_dep] + removed@.take(i)),
            forall|x: Handle, j: int|
                pending@.contains(x) && 0 <= j < qi ==> !(#[trigger] resolved(*dag, x).contains(order@[j])),
        decreases pending@.len(), order@.len() - qi,
    {
        let current = order[qi];
        let ghost len0 = pending@.len();
        let ghost o0 = order@.len();
        let mut k: usize = 0;
        while k < pending.len()
            invariant
                pending@.len() + order@.len() == len0 + o0,
                order@ == seq![failed_dep] + removed@,
                qi < order@.len(),
                current == order@[qi as int],
                k <= pending@.len(),
                pending@.len() <= len0,
                pending@.no_duplicates(),
                forall|x: Handle| pending@.contains(x) ==> orig.contains(x),
                forall|x: Handle| orig.contains(x) ==> pending@.contains(x) || removed@.contains(x),
                forall|x: Handle| removed@.contains(x) ==> orig.contains(x) && !pending@.contains(x),
                forall|i: int|
                    0 <= i < removed@.len() ==> depends_on_any(*dag, #[trigger] removed@[i], seq![failed_dep] + removed@.take(i)),
                forall|x: Handle, j: int|
                    pending@.contains(x) && 0 <= j < qi ==> !(#[trigger] resolved(*dag, x).contains(order@[j])),
                forall|i: int| 0 <= i < k ==> !resolved(*dag, #[trigger] pending@[i]).contains(current),
            decreases pending@.len() - k,
        {
            let n = pending[k];
            let deps = dag.collect_resolved(n);
            if crate::resolve::contains_handle(&deps, current) {
                let ghost p0 = pending@;
                let ghost r0 = removed@;
                pending.remove(k);
                removed.push(n);
                order.push(n);
                proof {
                    assert(p0[k as int] == n);
                    assert forall|x: Handle| pending@.contains(x) implies p0.contains(x) && x != n by {
                        let a = choose|a: int| 0 <= a < pending@.len() && pending@[a] == x;
                        if a < k {
                            assert(p0[a] == x);
                            assert(a != k);
                        } else {
                            assert(p0[a + 1] == x);
                        }
                    }
                    assert forall|x: Handle| p0.contains(x) && x != n implies pending@.contains(x) by {
                        let a = choose|a: int| 0 <= a < p0.len() && p0[a] == x;
                        if a < k {
                            assert(pending@[a] == x);
                        } else {
                            assert(a != k);
                            assert(pending@[a - 1] == x);
                        }
                    }
                    assert(pending@.no_duplicates()) by {
                        assert forall|a: int, b: int| 0 <= a < pending@.len() && 0 <= b < pending@.len() && a != b implies pending@[a] != pending@[b] by {
                            let oa = if a < k { a } else { a + 1 };
                            let ob = if b < k { b } else { b + 1 };
                            assert(pending@[a] == p0[oa]);
                            assert(pending@[b] == p0[ob]);
                        }
                    }
                    assert(removed@ == r0.push(n));
                    assert forall|i: int| 0 <= i < removed@.len() implies depends_on_any(*dag, #[trigger] removed@[i], seq![failed_dep] + removed@.take(i)) by {
                        if i < r0.len() {
                            assert(removed@.take(i) == r0.take(i));
                            assert(removed@[i] == r0[i]);
                        } else {
                            assert(removed@[i] == n);
                            let s2 = seq![failed_dep] + removed@.take(i);
                            assert(s2 == seq![failed_dep] + r0);
                            assert(s2[qi as int] == current);
                            assert(resolved(*dag, n).contains(s2[qi as int]));
                        }
                    }
                    assert forall|x: Handle, j: int|
                        pending@.contains(x) && 0 <= j < qi implies !(#[trigger] resolved(*dag, x).contains(order@[j])) by {
                        assert(p0.contains(x));
                        assert(order@[j] == (seq![failed_dep] + r0)[j]);
                    }
                    assert forall|i: int| 0 <= i < k implies !resolved(*dag, #[trigger] pending@[i]).contains(current) by {
                        assert(pending@[i] == p0[i]);
                    }
                    assert forall|x: Handle| removed@.contains(x) implies orig.contains(x) && !pending@.contains(x) by {
                        if x != n {
                            let a = choose|a: int| 0 <= a < removed@.len() && removed@[a] == x;
                            assert(r0[a] == x);
                            assert(r0.contains(x));
                        }
                    }
                    assert forall|x: Handle| orig.contains(x) implies pending@.contains(x) || removed@.contains(x) by {
                        if x == n {
                            assert(removed@[r0.len() as int] == n);
                        } else if r0.contains(x) {
                            let a = choose|a: int| 0 <= a < r0.len() && r0[a] == x;
                            assert(removed@[a] == x);
                        }
                    }
                }
            } else {
                k = k + 1;
            }
        }
        proof {
            assert forall|x: Handle, j: int|
                pending@.contains(x) && 0 <= j < qi + 1 implies !(#[trigger] resolved(*dag, x).contains(order@[j])) by {
                if j == qi {
                    let a = choose|a: int| 0 <= a < pending@.len() && pending@[a] == x;
                    assert(!resolved(*dag, pending@[a]).contains(current));
                }
            }
        }
        qi = qi + 1;
    }
    proof {
        assert forall|x: Handle| pending@.contains(x) implies !depends_on_any(*dag, x, seq![failed_dep] + removed@) by {
            if depends_on_any(*dag, x, seq![failed_dep] + removed@) {
                let j = choose|j: int| 0 <= j < (seq![failed_dep] + removed@).len() && resolved(*dag, x).contains(
                    #[trigger] (seq![failed_dep] + removed@)[j],
                );
                assert(order@[j] == (seq![failed_dep] + removed@)[j]);
            }
        }
    }
    removed
}

/// The message of a nonzero exit: `exit code {n}`.
pub open spec fn exit_code_message(exit_code: i32) -> Seq<char> {
    "exit code "@ + decimal_int(exit_code as int)
}

/// The result a join reports for an exit code: `Ok` for 0, else the exit message.
pub fn termination_result(exit_code: i32) -> (r: Result<(), String>)
    ensures
        exit_code == 0 ==> r is Ok,
        exit_code != 0 ==> (r matches Err(m) && m@ == exit_code_message(exit_code)),
{
    if exit_code == 0 {
        Ok(())
    } else {
        let mut m = String::from_str("exit code ");
        crate::text::push_decimal_i64(&mut m, exit_code as i64);
        proof { reveal_strlit("exit code "); }
        assert(m@ =~= exit_code_message(exit_code));
        Err(m)
    }
}

/// What joining a node gives at once: the result of a terminated node, an error
/// for an unknown node, or `None` when the caller must wait for the node.
pub fn join_decision(dag: &Dag, node: Handle) -> (r: Option<Result<(), String>>)
    ensures
        match dag.node(node) {
            None => r matches Some(Err(m)) && m@ == "node "@ + node.debug_text() + " not found in DAG"@,
            Some(n) => if n.state == NodeState::Terminated {
                r matches Some(res) && (n.exit_code == 0 ==> res is Ok) && (n.exit_code != 0 ==> (res matches Err(m)
                    && m@ == exit_code_message(n.exit_code)))
            } else {
                r is None
            },
        },
{
    match dag.get_node(node) {
        None => {
            let mut m = String::from_str("node ");
            let t = node.to_debug_string();
            m.append(t.as_str());
            m.append(" not found in DAG");
            proof {
                reveal_strlit("node ");
                reveal_strlit(" not found in DAG");
            }
            assert(m@ =~= "node "@ + node.debug_text() + " not found in DAG"@);
            Some(Err(m))
        },
        Some(n) => {
            if n.state == NodeState::Terminated {
                Some(termination_result(n.exit_code))
            } else {
                None
            }
        },
    }
}

/// The message a join waiter of a blocked node receives.
pub fn blocked_message(failed_dep: Handle) -> (r: String)
    ensures
        r@ == "blocked by failed dependency "@ + failed_dep.debug_text(),
{
    let mut m = String::from_str("blocked by failed dependency ");
    let t = failed_dep.to_debug_string();
    m.append(t.as_str());
    proof { reveal_strlit("blocked by failed dependency "); }
    assert(m@ =~= "blocked by failed dependency "@ + failed_dep.debug_text());
    m
}

/// Whether a node reporting termination moves to `Terminating`: it was running or
/// never started.
pub open spec fn starts_terminating(n: Option<Node>) -> bool {
    match n {
        Some(n) => n.state == NodeState::Running || n.state == NodeState::NotStarted,
        None => false,
    }
}

/// An actor reports it is terminating: a running (or never started) node becomes
/// `Terminating`; a terminating or terminated one stays. Returns the prior state
/// (`Terminating` for an unknown node).
pub fn on_terminating(dag: &mut Dag, node: Handle) -> (prior: NodeState)
    ensures
        prior == (match old(dag).node(node) {
            Some(n) => n.state,
            None => NodeState::Terminating,
        }),
        forall|q: Handle| #[trigger] final(dag).node(q) == if q == node && starts_terminating(old(dag).node(q)) {
            Some(Node { state: NodeState::Terminating, ..old(dag).node(q)->0 })
        } else {
            old(dag).node(q)
        },
        final(dag).deps() == old(dag).deps(),
        final(dag).next_id() == old(dag).next_id(),
{
    let prior = match dag.get_node(node) {
        Some(n) => n.state,
        None => NodeState::Terminating,
    };
    match prior {
        NodeState::Terminating | NodeState::Terminated => {},
        NodeState::Running | NodeState::NotStarted => {
            let ghost d0 = *dag;
            dag.set_state(node, NodeState::Terminating);
            proof {
                if let Some(n) = d0.node(node) {
                    lemma_first_index_exists(d0.nodes(), node);
                    assert forall|q: Handle| #[trigger] dag.node(q) == if q == node {
                        Some(Node { state: NodeState::Terminating, ..n })
                    } else {
                        d0.node(q)
                    } by {
                        lemma_replace_lookup(d0.nodes(), node, Node { state: NodeState::Terminating, ..n }, q);
                    }
                }
            }
        },
    }
    prior
}

/// An actor reports it has terminated with `exit_code`: the node becomes
/// `Terminated` with that exit code. Returns the prior state (`Terminated` for an
/// unknown node).
pub fn on_terminated(dag: &mut Dag, node: Handle, exit_code: i32) -> (prior: NodeState)
    ensures
        prior == (match old(dag).node(node) {
            Some(n) => n.state,
            None => NodeState::Terminated,
        }),
        forall|q: Handle| #[trigger] final(dag).node(q) == if q == node && old(dag).node(q) is Some {
            Some(Node { state: NodeState::Terminated, exit_code, ..old(dag).node(q)->0 })
        } else {
            old(dag).node(q)
        },
        final(dag).deps() == old(dag).deps(),
        final(dag).next_id() == old(dag).next_id(),
{
    let prior = match dag.get_node(node) {
        Some(n) => n.state,
        None => NodeState::Terminated,
    };
    let ghost d0 = *dag;
    dag.set_state(node, NodeState::Terminated);
    let ghost d1 = *dag;
    proof {
        if let Some(n) = d0.node(node) {
            lemma_first_index_exists(d0.nodes(), node);
            assert forall|q: Handle| #[trigger] d1.node(q) == if q == node {
                Some(Node { state: NodeState::Terminated, ..n })
            } else {
                d0.node(q)
            } by {
                lemma_replace_lookup(d0.nodes(), node, Node { state: NodeState::Terminated, ..n }, q);
            }
            assert(d1.node(node) == Some(Node { state: NodeState::Terminated, ..n }));
            lemma_first_index_exists(d1.nodes(), node);
        }
    }
    dag.set_exit_code(node, exit_code);
    proof {
        if let Some(n) = d0.node(node) {
            assert forall|q: Handle| #[trigger] dag.node(q) == if q == node {
                Some(Node { state: NodeState::Terminated, exit_code, ..n })
            } else {
                d0.node(q)
            } by {
                lemma_replace_lookup(d1.nodes(), node, Node { state: NodeState::Terminated, exit_code, ..n }, q);
                if q != node {
                    assert(d1.node(q) == d0.node(q));
                }
            }
        }
    }
    prior
}

/// The nodes of `s` that have not started, in order.
pub open spec fn not_started_in(dag: Dag, s: Seq<Handle>) -> Seq<Handle>
    decreases s.len(),
{
    if s.len() == 0 {
        Seq::empty()
    } else {
        let rest = not_started_in(dag, s.drop_last());
        if dag.node(s.last()) matches Some(n) && n.state == NodeState::NotStarted {
            rest.push(s.last())
        } else {
            rest
        }
    }
}

/// The nodes a job for `target` adds to the pending set: the nodes not started,
/// in topological order under the stop conditions, where `one_step` keeps only
/// the first of them (so a second one-step job advances past finished nodes).
pub open spec fn job_spec(dag: Dag, target: Handle, stop: StopConditions) -> Seq<Handle> {
    let s = not_started_in(dag, scheduled(dag, target, StopConditions { one_step: false, ..stop }));
    if stop.one_step && s.len() > 0 {
        s.take(1)
    } else {
        s
    }
}

/// Whether `h` is a node of the DAG that has not started.
pub open spec fn is_not_started(dag: Dag, h: Handle) -> bool {
    dag.node(h) matches Some(n) && n.state == NodeState::NotStarted
}

proof fn lemma_not_started_members(dag: Dag, s: Seq<Handle>)
    ensures
        forall|h: Handle| #[trigger] not_started_in(dag, s).contains(h) <==> s.contains(h) && is_not_started(dag, h),
    decreases s.len(),
{
    if s.len() > 0 {
        let s2 = s.drop_last();
        lemma_not_started_members(dag, s2);
        let r = not_started_in(dag, s2);
        assert forall|h: Handle| #[trigger] not_started_in(dag, s).contains(h) <==> s.contains(h) && is_not_started(dag, h) by {
            if s.contains(h) {
                let i = choose|i: int| 0 <= i < s.len() && s[i] == h;
                if i < s2.len() {
                    assert(s2[i] == h);
                }
            }
            if s2.contains(h) {
                let i = choose|i: int| 0 <= i < s2.len() && s2[i] == h;
                assert(s[i] == h);
            }
            if is_not_started(dag, s.last()) {
                let r2 = r.push(s.last());
                assert(r2.last() == s.last());
                if r.contains(h) {
                    let i = choose|i: int| 0 <= i < r.len() && r[i] == h;
                    assert(r2[i] == h);
                }
                if r2.contains(h) {
                    let i = choose|i: int| 0 <= i < r2.len() && r2[i] == h;
                    if i < r.len() {
                        assert(r[i] == h);
                    }
                }
            }
        }
    }
}

proof fn lemma_not_started_first(dag: Dag, s: Seq<Handle>)
    requires
        not_started_in(dag, s).len() > 0,
    ensures
        exists|k: int|
            0 <= k < s.len() && s[k] == not_started_in(dag, s)[0] && is_not_started(dag, s[k]) && forall|i: int|
                0 <= i < k ==> !is_not_started(dag, #[trigger] s[i]),
    decreases s.len(),
{
    let s2 = s.drop_last();
    let r = not_started_in(dag, s2);
    if r.len() > 0 {
        lemma_not_started_first(dag, s2);
        let k = choose|k: int|
            0 <= k < s2.len() && s2[k] == r[0] && is_not_started(dag, s2[k]) && forall|i: int|
                0 <= i < k ==> !is_not_started(dag, #[trigger] s2[i]);
        assert(not_started_in(dag, s)[0] == r[0]);
        assert(s[k] == s2[k]);
        assert forall|i: int| 0 <= i < k implies !is_not_started(dag, #[trigger] s[i]) by {
            assert(s[i] == s2[i]);
        }
    } else {
        lemma_not_started_members(dag, s2);
        let k = s.len() - 1;
        assert forall|i: int| 0 <= i < k implies !is_not_started(dag, #[trigger] s[i]) by {
            assert(s[i] == s2[i]);
            assert(s2.contains(s2[i]));
            if is_not_started(dag, s[i]) {
                assert(r.contains(s2[i]));
            }
        }
    }
}

/// Law: a job adds only nodes that have not started and that the target's order
/// (under the stop conditions, one-step aside) holds. Without one-step it adds every
/// such node; with one-step it adds at most one node, the first of the order that has
/// not started, and it adds one whenever the order holds a node that has not started.
pub proof fn lemma_job_adds_not_started(dag: Dag, target: Handle, stop: StopConditions)
    ensures
        ({
            let o = scheduled(dag, target, StopConditions { one_step: false, ..stop });
            let j = job_spec(dag, target, stop);
            &&& forall|h: Handle| #[trigger] j.contains(h) ==> is_not_started(dag, h) && o.contains(h)
            &&& !stop.one_step ==> forall|h: Handle| #[trigger] j.contains(h) <==> o.contains(h) && is_not_started(dag, h)
            &&& stop.one_step ==> j.len() <= 1
            &&& stop.one_step && j.len() == 1 ==> exists|k: int|
                0 <= k < o.len() && o[k] == j[0] && forall|i: int| 0 <= i < k ==> !is_not_started(dag, #[trigger] o[i])
            &&& stop.one_step && (exists|h: Handle| #[trigger] o.contains(h) && is_not_started(dag, h)) ==> j.len() == 1
        }),
{
    let o = scheduled(dag, target, StopConditions { one_step: false, ..stop });
    let all = not_started_in(dag, o);
    let j = job_spec(dag, target, stop);
    lemma_not_started_members(dag, o);
    if stop.one_step && all.len() > 0 {
        assert(j == all.take(1));
        lemma_not_started_first(dag, o);
        assert forall|h: Handle| #[trigger] j.contains(h) implies is_not_started(dag, h) && o.contains(h) by {
            assert(j[0] == all[0]);
            assert(all.contains(all[0]));
        }
    }
    if stop.one_step && (exists|h: Handle| #[trigger] o.contains(h) && is_not_started(dag, h)) {
        let h = choose|h: Handle| #[trigger] o.contains(h) && is_not_started(dag, h);
        assert(all.contains(h));
    }
}

/// The nodes that a job adds to the pending set.
pub fn job_nodes(dag: &Dag, target: Handle, stop_conditions: StopConditions) -> (r: Vec<Handle>)
    ensures
        r@ == job_spec(*dag, target, stop_conditions),
        forall|h: Handle| #[trigger] r@.contains(h) ==> is_not_started(*dag, h) && scheduled(
            *dag,
            target,
            StopConditions { one_step: false, ..stop_conditions },
        ).contains(h),
        !stop_conditions.one_step ==> forall|h: Handle| #[trigger] r@.contains(h) <==> scheduled(
            *dag,
            target,
            StopConditions { one_step: false, ..stop_conditions },
        ).contains(h) && is_not_started(*dag, h),
        stop_conditions.one_step ==> r@.len() <= 1,
        stop_conditions.one_step && r@.len() == 1 ==> exists|k: int|
            0 <= k < scheduled(*dag, target, StopConditions { one_step: false, ..stop_conditions }).len() && scheduled(
                *dag,
                target,
                StopConditions { one_step: false, ..stop_conditions },
            )[k] == r@[0] && forall|i: int|
                0 <= i < k ==> !is_not_started(
                    *dag,
                    #[trigger] scheduled(*dag, target, StopConditions { one_step: false, ..stop_conditions })[i],
                ),
        stop_conditions.one_step && (exists|h: Handle|
            #[trigger] scheduled(*dag, target, StopConditions { one_step: false, ..stop_conditions }).contains(h)
                && is_not_started(*dag, h)) ==> r@.len() == 1,
{
    proof {
        lemma_job_adds_not_started(*dag, target, stop_conditions);
    }
    let topo = StopConditions { one_step: false, ..stop_conditions };
    let sched = Scheduler::with_stop_conditions(dag, target, topo);
    let mut it = sched.iter();
    let ghost all = it.yields();
    let mut out: Vec<Handle> = Vec::new();
    let ghost mut seen: Seq<Handle> = Seq::empty();
    loop
        invariant
            it.well_formed(),
            all == scheduled(*dag, target, topo),
            seen + it.yields() == all,
            out@ == not_started_in(*dag, seen),
            stop_conditions.one_step ==> out@.len() <= 1,
            stop_conditions.one_step && out@.len() == 1 ==> out@ == not_started_in(*dag, all).take(1)
                && not_started_in(*dag, all).len() >= 1,
        ensures
            (!stop_conditions.one_step || out@.len() == 0) ==> out@ == not_started_in(*dag, all),
            stop_conditions.one_step && out@.len() == 1 ==> out@ == not_started_in(*dag, all).take(1)
                && not_started_in(*dag, all).len() >= 1,
            stop_conditions.one_step ==> out@.len() <= 1,
        decreases it.yields().len(),
    {
        if stop_conditions.one_step && out.len() == 1 {
            break;
        }
        let ghost y0 = it.yields();
        match it.next() {
            None => {
                assert(seen =~= all);
                break;
            },
            Some(h) => {
                proof {
                    assert(seen.push(h) + it.yields() =~= all);
                    assert(seen.push(h).drop_last() =~= seen);
                    seen = seen.push(h);
                }
                match dag.get_node(h) {
                    Some(n) => {
                        if n.state == NodeState::NotStarted {
                            out.push(h);
                            proof {
                                if stop_conditions.one_step {
                                    assert(all.subrange(0, seen.len() as int) =~= seen);
                                    lemma_not_started_prefix(*dag, seen, all);
                                }
                            }
                        }
                    },
                    None => {},
                }
            },
        }
    }
    proof {
        let s = not_started_in(*dag, all);
        assert(topo == StopConditions { one_step: false, ..stop_conditions });
        assert(all == scheduled(*dag, target, StopConditions { one_step: false, ..stop_conditions }));
        if stop_conditions.one_step {
            if out@.len() == 0 {
                assert(s.len() == 0);
            } else {
                assert(out@.len() == 1);
                assert(s.take(1).len() == 1);
                assert(s.len() > 0);
            }
        }
    }
    out
}

proof fn lemma_not_started_prefix(dag: Dag, seen: Seq<Handle>, all: Seq<Handle>)
    requires
        seen.len() <= all.len(),
        all.subrange(0, seen.len() as int) == seen,
        not_started_in(dag, seen).len() == 1,
    ensures
        not_started_in(dag, seen) == not_started_in(dag, all).take(1),
        not_started_in(dag, all).len() >= 1,
    decreases all.len(),
{
    if all.len() > seen.len() {
        let a2 = all.drop_last();
        assert(a2.subrange(0, seen.len() as int) =~= seen);
        lemma_not_started_prefix(dag, seen, a2);
        lemma_not_started_len(dag, a2);
        assert(not_started_in(dag, a2).len() >= 1) by {
            lemma_not_started_mono(dag, seen, a2);
        }
    } else {
        assert(all =~= seen);
    }
}

proof fn lemma_not_started_len(dag: Dag, s: Seq<Handle>)
    ensures
        not_started_in(dag, s).len() <= s.len(),
    decreases s.len(),
{
    if s.len() > 0 {
        lemma_not_started_len(dag, s.drop_last());
    }
}

proof fn lemma_not_started_mono(dag: Dag, a: Seq<Handle>, b: Seq<Handle>)
    requires
        a.len() <= b.len(),
        b.subrange(0, a.len() as int) == a,
    ensures
        not_started_in(dag, a).len() <= not_started_in(dag, b).len(),
        not_started_in(dag, b).subrange(0, not_started_in(dag, a).len() as int) == not_started_in(dag, a),
    decreases b.len(),
{
    if b.len() > a.len() {
        let b2 = b.drop_last();
        assert(b2.subrange(0, a.len() as int) =~= a);
        lemma_not_started_mono(dag, a, b2);
        assert(not_started_in(dag, b).subrange(0, not_started_in(dag, a).len() as int) =~= not_started_in(dag, b2).subrange(
            0,
            not_started_in(dag, a).len() as int,
        ));
    } else {
        assert(b =~= a);
        assert(not_started_in(dag, b).subrange(0, not_started_in(dag, a).len() as int) =~= not_started_in(dag, a));
    }
}

/// Add the nodes of a job to the pending set (nodes already pending are not
/// added twice).
pub fn add_pending(pending: &mut Vec<Handle>, nodes: &Vec<Handle>)
    requires
        old(pending)@.no_duplicates(),
    ensures
        final(pending)@.no_duplicates(),
        forall|x: Handle| final(pending)@.contains(x) <==> (old(pending)@.contains(x) || nodes@.contains(x)),
{
    let mut i: usize = 0;
    while i < nodes.len()
        invariant
            i <= nodes@.len(),
            pending@.no_duplicates(),
            forall|x: Handle| pending@.contains(x) <==> (old(pending)@.contains(x) || nodes@.take(i as int).contains(x)),
        decreases nodes@.len() - i,
    {
        let h = nodes[i];
        let ghost p0 = pending@;
        let ghost t0 = nodes@.take(i as int);
        let ghost t1 = nodes@.take(i + 1);
        assert(t1 =~= t0.push(h));
        let found = crate::resolve::contains_handle(pending, h);
        if !found {
            pending.push(h);
        }
        proof {
            if !found {
                assert(pending@ == p0.push(h));
                assert forall|a: int, b: int| 0 <= a < pending@.len() && 0 <= b < pending@.len() && a != b implies pending@[a] != pending@[b] by {
                    if a < p0.len() && b < p0.len() {
                    } else if a < p0.len() {
                        assert(p0.contains(pending@[a]));
                    } else {
                        assert(p0.contains(pending@[b]));
                    }
                }
            } else {
                assert(pending@ == p0);
            }
            assert forall|x: Handle| #[trigger] pending@.contains(x) <==> (old(pending)@.contains(x) || t1.contains(x)) by {
                assert(p0.contains(x) <==> (old(pending)@.contains(x) || t0.contains(x)));
                if pending@.contains(x) && x != h {
                    let a = choose|a: int| 0 <= a < pending@.len() && pending@[a] == x;
                    assert(p0[a] == x);
                }
                if p0.contains(x) {
                    let a = choose|a: int| 0 <= a < p0.len() && p0[a] == x;
                    assert(pending@[a] == x);
                }
                if t0.contains(x) {
                    let a = choose|a: int| 0 <= a < t0.len() && t0[a] == x;
                    assert(t1[a] == x);
                }
                if t1.contains(x) && x != h {
                    let a = choose|a: int| 0 <= a < t1.len() && t1[a] == x;
                    assert(t0[a] == x);
                }
                if x == h {
                    assert(t1[i as int] == h);
                    if !found {
                        assert(pending@[p0.len() as int] == h);
                    }
                }
            }
        }
        assert(nodes@.take((i + 1) as int) == t1);
        i = i + 1;
    }
    assert(nodes@.take(i as int) =~= nodes@);
}


/// Law: a node whose dependencies have all terminated cleanly is ready to spawn,
/// whether or not they produced output.
pub proof fn lemma_all_done_is_ready(node: Handle, dag: Dag, pool: PipePool)
    requires
        forall|i: int|
            0 <= i < resolved(dag, node).len() ==> (dag.node(#[trigger] resolved(dag, node)[i]) matches Some(n)
                && n.state == NodeState::Terminated && n.exit_code == 0),
    ensures
        readiness(node, dag, pool) == SpawnReadiness::Ready,
{
    lemma_done_deps_ready(resolved(dag, node), dag, pool.entries());
}

proof fn lemma_done_deps_ready(deps: Seq<Handle>, dag: Dag, entries: Seq<(Handle, isize, WriterState)>)
    requires
        forall|i: int|
            0 <= i < deps.len() ==> (dag.node(#[trigger] deps[i]) matches Some(n) && n.state == NodeState::Terminated
                && n.exit_code == 0),
    ensures
        readiness_of(deps, dag, entries) == SpawnReadiness::Ready,
    decreases deps.len(),
{
    if deps.len() > 0 {
        let rest = deps.drop_first();
        assert forall|i: int| 0 <= i < rest.len() implies (dag.node(#[trigger] rest[i]) matches Some(n) && n.state
            == NodeState::Terminated && n.exit_code == 0) by {
            assert(rest[i] == deps[i + 1]);
        }
        lemma_done_deps_ready(rest, dag, entries);
        assert(dag.node(deps[0]) matches Some(n) && n.state == NodeState::Terminated && n.exit_code == 0);
    }
}

/// Law: a node whose first resolved dependency has not started waits.
pub proof fn lemma_unstarted_dependency_waits(node: Handle, dag: Dag, pool: PipePool)
    requires
        resolved(dag, node).len() > 0,
        dag.node(resolved(dag, node)[0]) matches Some(n) && n.state == NodeState::NotStarted,
    ensures
        readiness(node, dag, pool) == SpawnReadiness::Waiting,
{
}

/// Law: when the first resolved dependency terminated with an error, the node is
/// blocked by that dependency.
pub proof fn lemma_failed_first_dependency_blocks(node: Handle, dag: Dag, pool: PipePool)
    requires
        resolved(dag, node).len() > 0,
        dag.node(resolved(dag, node)[0]) matches Some(n) && n.state == NodeState::Terminated && n.exit_code != 0,
    ensures
        readiness(node, dag, pool) == SpawnReadiness::FailedDependency(resolved(dag, node)[0]),
{
}

} // verus!
