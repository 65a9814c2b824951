//! The environment of an actor system: the DAG, the pipe pool with its store,
//! the actor registry, and the variables service.

use vstd::prelude::*;
use vstd::string::StringExecFns;

use crate::dag::{lemma_add_then_lookup, lemma_first_index_exists, lemma_replace_lookup, Dag, DependsOn, For, Node, NodeKind, NodeState};
use crate::idgen::{Handle, IdGen};
use crate::kv::{KVError, MemKV};
use crate::pipe::{pipe_path, pipe_path_spec, PipePool};
use crate::registry::ActorRegistry;
use crate::resolve::resolved;
use crate::text::str_eq;

verus! {

broadcast use Handle::lemma_handle_ext;

/// Named string values that actors read (model, URL, ...).
pub struct EnvService {
    vars: Vec<(String, String)>,
}

/// The value of `key`, if set.
pub open spec fn var_lookup(vars: Seq<(Seq<char>, Seq<char>)>, key: Seq<char>) -> Option<Seq<char>> {
    if exists|i: int| 0 <= i < vars.len() && vars[i].0 == key {
        Some(vars[choose|i: int| 0 <= i < vars.len() && vars[i].0 == key].1)
    } else {
        None
    }
}

impl EnvService {
    /// The variables: key and value.
    pub closed spec fn vars(self) -> Seq<(Seq<char>, Seq<char>)> {
        self.vars@.map_values(|e: (String, String)| (e.0@, e.1@))
    }

    /// The value of `key`, if set.
    pub open spec fn value(self, key: Seq<char>) -> Option<Seq<char>> {
        var_lookup(self.vars(), key)
    }

    /// Each key occurs once.
    pub open spec fn wf(self) -> bool {
        forall|i: int, j: int| 0 <= i < self.vars().len() && 0 <= j < self.vars().len() && i != j ==> self.vars()[i].0
            != self.vars()[j].0
    }

    /// No variable set.
    pub fn new() -> (s: Self)
        ensures
            s.wf(),
            forall|k: Seq<char>| s.value(k) is None,
    {
        let s = Self { vars: Vec::new() };
        assert(s.vars() =~= Seq::<(Seq<char>, Seq<char>)>::empty());
        s
    }

    fn find(&self, key: &str) -> (r: Option<usize>)
        ensures
            r is None ==> forall|i: int| 0 <= i < self.vars().len() ==> self.vars()[i].0 != key@,
            r matches Some(i) ==> i < self.vars().len() && self.vars()[i as int].0 == key@,
    {
        let mut i: usize = 0;
        while i < self.vars.len()
            invariant
                i <= self.vars@.len(),
                forall|j: int| 0 <= j < i ==> self.vars()[j].0 != key@,
            decreases self.vars@.len() - i,
        {
            if str_eq(self.vars[i].0.as_str(), key) {
                return Some(i);
            }
            i = i + 1;
        }
        None
    }

    /// Set `key` to `value`, replacing an earlier value.
    pub fn set(&mut self, key: String, value: String)
        requires
            old(self).wf(),
        ensures
            final(self).wf(),
            final(self).value(key@) == Some(value@),
            forall|k: Seq<char>| k != key@ ==> final(self).value(k) == old(self).value(k),
    {
        let ghost kv = key@;
        let ghost vv = value@;
        match self.find(key.as_str()) {
            Some(i) => {
                self.vars.set(i, (key, value));
                proof {
                    let v0 = old(self).vars();
                    let v1 = self.vars();
                    assert(v1 =~= v0.update(i as int, (kv, vv)));
                    assert forall|a: int, b: int| 0 <= a < v1.len() && 0 <= b < v1.len() && a != b implies v1[a].0 != v1[b].0 by {
                        assert(v1[a].0 == v0[a].0 && v1[b].0 == v0[b].0);
                    }
                    assert forall|k: Seq<char>| k != kv implies var_lookup(v1, k) == var_lookup(v0, k) by {
                        if exists|x: int| 0 <= x < v0.len() && v0[x].0 == k {
                            let x = choose|x: int| 0 <= x < v0.len() && v0[x].0 == k;
                            assert(v1[x].0 == k);
                            let y = choose|y: int| 0 <= y < v1.len() && v1[y].0 == k;
                            assert(y == x);
                        } else {
                            assert(!exists|x: int| 0 <= x < v1.len() && v1[x].0 == k) by {
                                if exists|x: int| 0 <= x < v1.len() && v1[x].0 == k {
                                    let x = choose|x: int| 0 <= x < v1.len() && v1[x].0 == k;
                                    assert(v0[x].0 == k);
                                }
                            }
                        }
                    }
                    assert(v1[i as int].0 == kv);
                    let y = choose|y: int| 0 <= y < v1.len() && v1[y].0 == kv;
                    assert(y == i);
                }
            },
            None => {
                self.vars.push((key, value));
                proof {
                    let v0 = old(self).vars();
                    let v1 = self.vars();
                    let n = v0.len() as int;
                    assert(v1 =~= v0.push((kv, vv)));
                    assert forall|a: int, b: int| 0 <= a < v1.len() && 0 <= b < v1.len() && a != b implies v1[a].0 != v1[b].0 by {
                        if a < n && b < n {
                            assert(v1[a] == v0[a] && v1[b] == v0[b]);
                        } else if a < n {
                            assert(v1[a] == v0[a]);
                        } else {
                            assert(v1[b] == v0[b]);
                        }
                    }
                    assert forall|k: Seq<char>| k != kv implies var_lookup(v1, k) == var_lookup(v0, k) by {
                        if exists|x: int| 0 <= x < v0.len() && v0[x].0 == k {
                            let x = choose|x: int| 0 <= x < v0.len() && v0[x].0 == k;
                            assert(v1[x].0 == k);
                            let y = choose|y: int| 0 <= y < v1.len() && v1[y].0 == k;
                            assert(y == x);
                        } else {
                            assert(!exists|x: int| 0 <= x < v1.len() && v1[x].0 == k) by {
                                if exists|x: int| 0 <= x < v1.len() && v1[x].0 == k {
                                    let x = choose|x: int| 0 <= x < v1.len() && v1[x].0 == k;
                                    assert(x != n);
                                    assert(v0[x].0 == k);
                                }
                            }
                        }
                    }
                    assert(v1[n].0 == kv);
                    let y = choose|y: int| 0 <= y < v1.len() && v1[y].0 == kv;
                    assert(y == n);
                }
            },
        }
    }

    /// The value of `key`, if set.
    pub fn get(&self, key: &str) -> (r: Option<String>)
        requires
            self.wf(),
        ensures
            match self.value(key@) {
                Some(v) => r matches Some(s) && s@ == v,
                None => r is None,
            },
    {
        match self.find(key) {
            Some(i) => {
                proof {
                    let y = choose|y: int| 0 <= y < self.vars().len() && self.vars()[y].0 == key@;
                    assert(y == i);
                }
                Some(self.vars[i].1.clone())
            },
            None => None,
        }
    }
}

impl Default for EnvService {
    fn default() -> (s: Self)
        ensures
            s.wf(),
            forall|k: Seq<char>| s.value(k) is None,
    {
        Self::new()
    }
}

/// The fd of a node's output (stdout).
pub const OUTPUT_FD: isize = 1;

/// The actor system: the DAG, the pipes and their store, the actor functions and
/// the variables. Node and pipe handles come from one generator, the DAG's
/// (`Dag::idgen_mut`), so no two of them are equal.
pub struct Environment<F> {
    pub dag: Dag,
    pub pipe_pool: PipePool,
    pub actor_registry: ActorRegistry<F>,
    pub env_service: EnvService,
}

/// The nodes that a lookup finds after the node `h` was added as `n`.
pub open spec fn node_added(old: Dag, new: Dag, h: Handle, n: Node) -> bool {
    &&& new.node(h) == Some(n)
    &&& forall|q: Handle| q != h ==> #[trigger] new.node(q) == old.node(q)
}

impl<F: Copy> Environment<F> {
    /// The environment's invariant.
    pub open spec fn wf(self) -> bool {
        &&& self.pipe_pool.wf()
        &&& self.actor_registry.wf()
        &&& self.env_service.wf()
    }

    /// A new environment over a store: empty DAG, no pipes, no actors.
    pub fn new(kv: MemKV) -> (e: Self)
        requires
            kv.wf(),
        ensures
            e.wf(),
            e.dag.nodes().len() == 0,
            e.dag.deps().len() == 0,
            e.pipe_pool.kv() == kv,
            e.pipe_pool.entries().len() == 0,
    {
        Self {
            dag: Dag::new(IdGen::new()),
            pipe_pool: PipePool::new(kv),
            actor_registry: ActorRegistry::new(),
            env_service: EnvService::new(),
        }
    }

    /// Add a value node: a node `value` that is terminated from the start, whose
    /// output `data` is written to the store at once, at its stdout pipe path.
    pub fn add_value_node(&mut self, data: &[u8], explain: Option<String>) -> (r: Result<Handle, KVError>)
        requires
            old(self).wf(),
        ensures
            final(self).wf(),
            r matches Ok(h) && {
                &&& h.spec_id() == old(self).dag.next_id()
                &&& final(self).dag.deps() == old(self).dag.deps()
                &&& old(self).dag.fresh_ids() ==> node_added(
                    old(self).dag,
                    final(self).dag,
                    h,
                    Node {
                        pid: h,
                        idname: final(self).dag.node(h)->0.idname,
                        kind: NodeKind::Concrete,
                        state: NodeState::Terminated,
                        explain,
                        exit_code: 0,
                    },
                ) && final(self).dag.node(h)->0.idname@ == "value"@
                &&& final(self).pipe_pool.kv().buffers() == old(self).pipe_pool.kv().buffers().push(data@)
                &&& final(self).pipe_pool.kv().paths() == crate::kv::assign_path(
                    old(self).pipe_pool.kv().paths(),
                    pipe_path_spec(h, OUTPUT_FD),
                    old(self).pipe_pool.kv().buffers().len(),
                )
                &&& final(self).pipe_pool.slots() == old(self).pipe_pool.slots()
                &&& final(self).pipe_pool.entries() == old(self).pipe_pool.entries()
            },
    {
        let ghost d0 = self.dag;
        let name = String::from_str("value");
        proof { reveal_strlit("value"); }
        let ghost nm = name;
        let handle = self.dag.add_node_with_explain(name, NodeKind::Concrete, explain);
        let ghost d1 = self.dag;
        let ghost n1 = Node { pid: handle, idname: nm, kind: NodeKind::Concrete, state: NodeState::NotStarted, explain, exit_code: 0 };
        proof {
            if d0.fresh_ids() {
                lemma_add_then_lookup(d0.nodes(), n1);
                assert forall|q: Handle| q != handle implies #[trigger] d1.node(q) == d0.node(q) by {
                    lemma_lookup_push_other(d0.nodes(), n1, q);
                }
            }
        }
        self.dag.set_state(handle, NodeState::Terminated);
        proof {
            if d0.fresh_ids() {
                lemma_first_index_exists(d1.nodes(), handle);
                let n2 = Node { state: NodeState::Terminated, ..n1 };
                assert forall|q: Handle| #[trigger] self.dag.node(q) == if q == handle { Some(n2) } else { d1.node(q) } by {
                    lemma_replace_lookup(d1.nodes(), handle, n2, q);
                }
                assert(self.dag.node(handle) == Some(n2));
            }
        }
        let path = pipe_path(handle, OUTPUT_FD);
        match self.pipe_pool.write_completed_buffer(path.as_str(), data) {
            Ok(_) => Ok(handle),
            Err(e) => Err(e),
        }
    }

    /// Add a concrete node that depends on `deps`, in order.
    pub fn add_node(&mut self, idname: String, deps: &[Handle], explain: Option<String>) -> (h: Handle)
        ensures
            h.spec_id() == old(self).dag.next_id(),
            final(self).dag.nodes() == old(self).dag.nodes().push(
                Node { pid: h, idname, kind: NodeKind::Concrete, state: NodeState::NotStarted, explain, exit_code: 0 },
            ),
            final(self).dag.deps() == old(self).dag.deps() + deps@.map_values(|d: Handle| (h, d)),
            final(self).pipe_pool == old(self).pipe_pool,
    {
        let handle = self.dag.add_node_with_explain(idname, NodeKind::Concrete, explain);
        let ghost d1 = self.dag.deps();
        let mut i: usize = 0;
        while i < deps.len()
            invariant
                i <= deps@.len(),
                self.dag.deps() == d1 + deps@.take(i as int).map_values(|d: Handle| (handle, d)),
                self.dag.nodes() == old(self).dag.nodes().push(
                    Node { pid: handle, idname, kind: NodeKind::Concrete, state: NodeState::NotStarted, explain, exit_code: 0 },
                ),
                self.pipe_pool == old(self).pipe_pool,
                self.dag.next_id() == crate::idgen::wrapping_next(old(self).dag.next_id()),
            decreases deps@.len() - i,
        {
            self.dag.add_dependency(For(handle), DependsOn(deps[i]));
            assert(deps@.take(i + 1).map_values(|d: Handle| (handle, d)) =~= deps@.take(i as int).map_values(
                |d: Handle| (handle, d),
            ).push((handle, deps@[i as int])));
            assert(self.dag.deps() =~= d1 + deps@.take(i + 1).map_values(|d: Handle| (handle, d)));
            i = i + 1;
        }
        assert(deps@.take(i as int) =~= deps@);
        handle
    }

    /// Add an alias node pointing to a single target (or add the target to the
    /// alias of that name, if there is one).
    pub fn add_alias(&mut self, alias_name: String, target: Handle) -> (h: Handle)
        ensures
            match old(self).dag.find_alias_spec(alias_name@) {
                Some(a) => h == a && final(self).dag.nodes() == old(self).dag.nodes(),
                None => h.spec_id() == old(self).dag.next_id() && final(self).dag.nodes() == old(self).dag.nodes().push(
                    Node { pid: h, idname: alias_name, kind: NodeKind::Alias, state: NodeState::NotStarted, explain: None, exit_code: 0 },
                ),
            },
            final(self).dag.deps() == old(self).dag.deps().push((h, target)),
            final(self).pipe_pool == old(self).pipe_pool,
    {
        let targets = [target];
        let h = self.add_aliases(alias_name, &targets);
        assert(targets@.map_values(|d: Handle| (h, d)) =~= seq![(h, target)]);
        h
    }

    /// Add an alias node pointing to one or more targets. If an alias node with
    /// the same name exists, the targets are added to it and its handle returned.
    pub fn add_aliases(&mut self, alias_name: String, targets: &[Handle]) -> (h: Handle)
        ensures
            match old(self).dag.find_alias_spec(alias_name@) {
                Some(a) => h == a && final(self).dag.nodes() == old(self).dag.nodes(),
                None => h.spec_id() == old(self).dag.next_id() && final(self).dag.nodes() == old(self).dag.nodes().push(
                    Node { pid: h, idname: alias_name, kind: NodeKind::Alias, state: NodeState::NotStarted, explain: None, exit_code: 0 },
                ),
            },
            final(self).dag.deps() == old(self).dag.deps() + targets@.map_values(|d: Handle| (h, d)),
            final(self).pipe_pool == old(self).pipe_pool,
    {
        let existing = self.dag.find_alias(alias_name.as_str());
        let handle = match existing {
            Some(h) => h,
            None => self.dag.add_node(alias_name, NodeKind::Alias),
        };
        let ghost n1 = self.dag.nodes();
        let ghost d1 = self.dag.deps();
        let mut i: usize = 0;
        while i < targets.len()
            invariant
                i <= targets@.len(),
                self.dag.deps() == d1 + targets@.take(i as int).map_values(|d: Handle| (handle, d)),
                self.dag.nodes() == n1,
                self.pipe_pool == old(self).pipe_pool,
            decreases targets@.len() - i,
        {
            self.dag.add_dependency(For(handle), DependsOn(targets[i]));
            assert(targets@.take(i + 1).map_values(|d: Handle| (handle, d)) =~= targets@.take(i as int).map_values(
                |d: Handle| (handle, d),
            ).push((handle, targets@[i as int])));
            assert(self.dag.deps() =~= d1 + targets@.take(i + 1).map_values(|d: Handle| (handle, d)));
            i = i + 1;
        }
        assert(targets@.take(i as int) =~= targets@);
        handle
    }

    /// Resolve a handle to all concrete nodes it refers to: an alias expands to
    /// the concrete nodes it reaches; any other handle stands for itself.
    pub fn resolve_all(&self, handle: Handle) -> (r: Vec<Handle>)
        ensures
            (self.dag.node(handle) matches Some(n) && n.kind == NodeKind::Alias) ==> r@ == resolved(self.dag, handle),
            !(self.dag.node(handle) matches Some(n) && n.kind == NodeKind::Alias) ==> r@ == seq![handle],
    {
        match self.dag.get_node(handle) {
            Some(n) => {
                if n.kind == NodeKind::Alias {
                    self.dag.collect_resolved(handle)
                } else {
                    vec![handle]
                }
            },
            None => vec![handle],
        }
    }
}

/// Adding a node leaves the lookup of other handles as it was, when the new
/// handle is fresh.
pub proof fn lemma_lookup_push_other(nodes: Seq<Node>, n: Node, q: Handle)
    requires
        forall|i: int| 0 <= i < nodes.len() ==> nodes[i].pid != n.pid,
        q != n.pid,
    ensures
        crate::dag::lookup(nodes.push(n), q) == crate::dag::lookup(nodes, q),
{
    let nn = nodes.push(n);
    if crate::dag::has_pid(nodes, q) {
        lemma_first_index_exists(nodes, q);
        let k = crate::dag::pid_index(nodes, q);
        assert(crate::dag::is_first_index(nn, q, k));
        crate::dag::lemma_first_index_unique(nn, q, k);
    } else {
        assert(!crate::dag::has_pid(nn, q)) by {
            if crate::dag::has_pid(nn, q) {
                let k = choose|k: int| 0 <= k < nn.len() && nn[k].pid == q;
                if k < nodes.len() {
                    assert(nodes[k].pid == q);
                }
            }
        }
    }
}

} // verus!
