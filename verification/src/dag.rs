//! The DAG of actor nodes and their dependencies.

use vstd::prelude::*;

use crate::idgen::{Handle, IdGen, wrapping_next};

verus! {

broadcast use Handle::lemma_handle_ext;

/// Wrapper for the dependent node in `add_dependency(For(A), DependsOn(B))`.
/// Reads as: "for node A, add dependency on B".
#[derive(Clone, Copy)]
pub struct For(pub Handle);

/// Wrapper for the dependency node in `add_dependency(For(A), DependsOn(B))`.
/// Reads as: "A depends on B".
#[derive(Clone, Copy)]
pub struct DependsOn(pub Handle);

/// Lifecycle state of a node.
#[derive(Debug, Clone, Copy, PartialEq, Eq, Structural)]
pub enum NodeState {
    NotStarted,
    Running,
    Terminating,
    Terminated,
}

/// Whether a node runs an actor or only names other nodes.
#[derive(Debug, Clone, Copy, PartialEq, Eq, Structural)]
pub enum NodeKind {
    Concrete,
    Alias,
}

/// A node of the DAG.
#[derive(Debug)]
pub struct Node {
    pub pid: Handle,
    pub idname: String,
    pub kind: NodeKind,
    pub state: NodeState,
    pub explain: Option<String>,
    /// POSIX exit code: 0 = clean exit, non-zero = error.
    pub exit_code: i32,
}

/// Nodes and their dependency edges.
#[derive(Debug)]
pub struct Dag {
    nodes: Vec<Node>,
    /// Dependencies: each (for_node, depends_on) edge
    deps: Vec<(Handle, Handle)>,
    idgen: IdGen,
}

// ---------------------------------------------------------------------------
// Specification of node lookup and edges
// ---------------------------------------------------------------------------

/// Whether `i` is the first index of a node with handle `pid`.
pub open spec fn is_first_index(nodes: Seq<Node>, pid: Handle, i: int) -> bool {
    &&& 0 <= i < nodes.len()
    &&& nodes[i].pid == pid
    &&& forall|j: int| 0 <= j < i ==> nodes[j].pid != pid
}

/// Whether some node has handle `pid`.
pub open spec fn has_pid(nodes: Seq<Node>, pid: Handle) -> bool {
    exists|i: int| 0 <= i < nodes.len() && nodes[i].pid == pid
}

/// The index of the first node with handle `pid`.
pub open spec fn pid_index(nodes: Seq<Node>, pid: Handle) -> int {
    choose|i: int| is_first_index(nodes, pid, i)
}

/// The node that a lookup of `pid` finds: the first node with that handle.
pub open spec fn lookup(nodes: Seq<Node>, pid: Handle) -> Option<Node> {
    if has_pid(nodes, pid) {
        Some(nodes[pid_index(nodes, pid)])
    } else {
        None
    }
}

/// The direct dependencies of `pid`, in the order the edges were added.
pub open spec fn direct_deps(deps: Seq<(Handle, Handle)>, pid: Handle) -> Seq<Handle>
    decreases deps.len(),
{
    if deps.len() == 0 {
        Seq::empty()
    } else {
        let rest = direct_deps(deps.drop_last(), pid);
        if deps.last().0 == pid {
            rest.push(deps.last().1)
        } else {
            rest
        }
    }
}

/// The direct dependents of `pid`, in the order the edges were added.
pub open spec fn direct_dependents(deps: Seq<(Handle, Handle)>, pid: Handle) -> Seq<Handle>
    decreases deps.len(),
{
    if deps.len() == 0 {
        Seq::empty()
    } else {
        let rest = direct_dependents(deps.drop_last(), pid);
        if deps.last().1 == pid {
            rest.push(deps.last().0)
        } else {
            rest
        }
    }
}

/// How many times `h` occurs in `s`.
pub open spec fn occurrences(s: Seq<Handle>, h: Handle) -> nat
    decreases s.len(),
{
    if s.len() == 0 {
        0
    } else {
        occurrences(s.drop_last(), h) + if s.last() == h {
            1nat
        } else {
            0nat
        }
    }
}

/// Law: the dependents of `y` are the exact converse of the dependencies: `x` occurs
/// among the direct dependents of `y` as many times as `y` occurs among the direct
/// dependencies of `x` (once per edge from `x` to `y`).
pub proof fn lemma_dependents_converse(deps: Seq<(Handle, Handle)>, x: Handle, y: Handle)
    ensures
        occurrences(direct_dependents(deps, y), x) == occurrences(direct_deps(deps, x), y),
    decreases deps.len(),
{
    if deps.len() > 0 {
        let rest = deps.drop_last();
        lemma_dependents_converse(rest, x, y);
        let e = deps.last();
        let a = direct_dependents(rest, y);
        let b = direct_deps(rest, x);
        if e.1 == y {
            assert(direct_dependents(deps, y) == a.push(e.0));
            assert(a.push(e.0).drop_last() =~= a);
        } else {
            assert(direct_dependents(deps, y) == a);
        }
        if e.0 == x {
            assert(direct_deps(deps, x) == b.push(e.1));
            assert(b.push(e.1).drop_last() =~= b);
        } else {
            assert(direct_deps(deps, x) == b);
        }
    }
}

/// A first index exists whenever some node has the handle.
pub proof fn lemma_first_index_exists(nodes: Seq<Node>, pid: Handle)
    requires
        has_pid(nodes, pid),
    ensures
        is_first_index(nodes, pid, pid_index(nodes, pid)),
{
    let k = choose|k: int| 0 <= k < nodes.len() && nodes[k].pid == pid;
    lemma_min_index(nodes, pid, k);
}

proof fn lemma_min_index(nodes: Seq<Node>, pid: Handle, k: int)
    requires
        0 <= k < nodes.len(),
        nodes[k].pid == pid,
    ensures
        exists|i: int| is_first_index(nodes, pid, i),
    decreases k,
{
    if exists|j: int| 0 <= j < k && nodes[j].pid == pid {
        let j = choose|j: int| 0 <= j < k && nodes[j].pid == pid;
        lemma_min_index(nodes, pid, j);
    } else {
        assert(is_first_index(nodes, pid, k));
    }
}

/// The first index is unique.
pub proof fn lemma_first_index_unique(nodes: Seq<Node>, pid: Handle, i: int)
    requires
        is_first_index(nodes, pid, i),
    ensures
        pid_index(nodes, pid) == i,
        has_pid(nodes, pid),
{
    assert(is_first_index(nodes, pid, pid_index(nodes, pid)));
    let p = pid_index(nodes, pid);
    if p < i {
        assert(nodes[p].pid != pid);
    } else if p > i {
        assert(nodes[i].pid != pid);
    }
}

// ---------------------------------------------------------------------------
// Dag operations
// ---------------------------------------------------------------------------

impl Dag {
    /// The nodes, in insertion order.
    pub closed spec fn nodes(self) -> Seq<Node> {
        self.nodes@
    }

    /// The dependency edges `(for_node, depends_on)`, in insertion order.
    pub closed spec fn deps(self) -> Seq<(Handle, Handle)> {
        self.deps@
    }

    /// The id that the next added node receives.
    pub closed spec fn next_id(self) -> i64 {
        self.idgen.next()
    }

    /// Every node handle is unique and below the next id to hand out.
    pub open spec fn fresh_ids(self) -> bool {
        &&& forall|i: int| 0 <= i < self.nodes().len() ==> self.nodes()[i].pid.spec_id() < self.next_id()
        &&& forall|i: int, j: int|
            0 <= i < self.nodes().len() && 0 <= j < self.nodes().len() && i != j
                ==> self.nodes()[i].pid != self.nodes()[j].pid
    }

    /// The node that a lookup of `pid` finds.
    pub open spec fn node(self, pid: Handle) -> Option<Node> {
        lookup(self.nodes(), pid)
    }

    /// An empty DAG whose node ids come from `idgen`.
    pub fn new(idgen: IdGen) -> (d: Self)
        ensures
            d.nodes() == Seq::<Node>::empty(),
            d.deps() == Seq::<(Handle, Handle)>::empty(),
            d.next_id() == idgen.next(),
            d.fresh_ids(),
    {
        Self { nodes: Vec::new(), deps: Vec::new(), idgen }
    }

    /// The generator of this DAG's handles, also used for the handles of pipes.
    pub closed spec fn spec_idgen(self) -> IdGen {
        self.idgen
    }

    /// The generator of handles, to take handles for other things than nodes (pipes),
    /// so that they never collide with node handles.
    pub fn idgen_mut(&mut self) -> (r: &mut IdGen)
        ensures
            *r == old(self).spec_idgen(),
            final(self).nodes() == old(self).nodes(),
            final(self).deps() == old(self).deps(),
            final(self).spec_idgen() == *final(r),
            old(self).next_id() == r.next(),
            final(self).next_id() == final(r).next(),
    {
        &mut self.idgen
    }

    /// Puts `g` in place of the generator of handles and gives back the one it replaces.
    pub(crate) fn swap_idgen(&mut self, g: IdGen) -> (r: IdGen)
        ensures
            r == old(self).spec_idgen(),
            final(self).spec_idgen() == g,
            final(self).nodes() == old(self).nodes(),
            final(self).deps() == old(self).deps(),
    {
        let mut g = g;
        std::mem::swap(&mut g, &mut self.idgen);
        g
    }

    /// Hands out the next id from this DAG's generator without adding a node.
    pub fn next_handle_id(&mut self) -> (r: i64)
        ensures
            r == old(self).next_id(),
            final(self).next_id() == wrapping_next(old(self).next_id()),
            final(self).nodes() == old(self).nodes(),
            final(self).deps() == old(self).deps(),
    {
        self.idgen.get_next()
    }

    /// Adds a node without explanation.
    pub fn add_node(&mut self, idname: String, kind: NodeKind) -> (pid: Handle)
        ensures
            pid.spec_id() == old(self).next_id(),
            final(self).next_id() == wrapping_next(old(self).next_id()),
            final(self).deps() == old(self).deps(),
            final(self).nodes() == old(self).nodes().push(Node {
                pid,
                idname,
                kind,
                state: NodeState::NotStarted,
                explain: None,
                exit_code: 0,
            }),
            old(self).fresh_ids() && old(self).next_id() < i64::MAX ==> final(self).fresh_ids(),
    {
        self.add_node_with_explain(idname, kind, None)
    }

    /// Adds a node in state `NotStarted` with exit code 0 and a fresh handle.
    pub fn add_node_with_explain(&mut self, idname: String, kind: NodeKind, explain: Option<String>) -> (pid: Handle)
        ensures
            pid.spec_id() == old(self).next_id(),
            final(self).next_id() == wrapping_next(old(self).next_id()),
            final(self).deps() == old(self).deps(),
            final(self).nodes() == old(self).nodes().push(Node {
                pid,
                idname,
                kind,
                state: NodeState::NotStarted,
                explain,
                exit_code: 0,
            }),
            old(self).fresh_ids() && old(self).next_id() < i64::MAX ==> final(self).fresh_ids(),
    {
        let pid = Handle::new(self.idgen.get_next());
        self.nodes.push(Node { pid, idname, kind, state: NodeState::NotStarted, explain, exit_code: 0 });
        pid
    }

    /// The handle of the first alias node named `name`, if any.
    pub open spec fn find_alias_spec(self, name: Seq<char>) -> Option<Handle> {
        match first_alias_index(self.nodes(), name) {
            Some(i) => Some(self.nodes()[i].pid),
            None => None,
        }
    }

    /// The handle of the first alias node named `name`, if any.
    pub fn find_alias(&self, name: &str) -> (r: Option<Handle>)
        ensures
            r == self.find_alias_spec(name@),
    {
        let mut i: usize = 0;
        while i < self.nodes.len()
            invariant
                i <= self.nodes@.len(),
                forall|j: int| 0 <= j < i ==> !is_alias_named(#[trigger] self.nodes()[j], name@),
            decreases self.nodes@.len() - i,
        {
            if self.nodes[i].kind == NodeKind::Alias && crate::text::str_eq(self.nodes[i].idname.as_str(), name) {
                proof {
                    let ns = self.nodes();
                    assert(is_alias_named(ns[i as int], name@));
                    let w = choose|k: int|
                        0 <= k < ns.len() && is_alias_named(ns[k], name@) && forall|j: int|
                            0 <= j < k ==> !is_alias_named(#[trigger] ns[j], name@);
                    if w < i {
                    } else if w > i {
                        assert(!is_alias_named(ns[i as int], name@));
                    }
                }
                return Some(self.nodes[i].pid);
            }
            i = i + 1;
        }
        None
    }

    /// Index of the first node with handle `pid`, if any.
    fn find_index(&self, pid: Handle) -> (r: Option<usize>)
        ensures
            r is None <==> !has_pid(self.nodes(), pid),
            r matches Some(i) ==> is_first_index(self.nodes(), pid, i as int) && i == pid_index(self.nodes(), pid),
    {
        let mut i: usize = 0;
        while i < self.nodes.len()
            invariant
                i <= self.nodes@.len(),
                forall|j: int| 0 <= j < i ==> self.nodes@[j].pid != pid,
            decreases self.nodes@.len() - i,
        {
            if self.nodes[i].pid == pid {
                proof { lemma_first_index_unique(self.nodes@, pid, i as int); }
                return Some(i);
            }
            i = i + 1;
        }
        None
    }

    /// The node with handle `pid`, if any.
    pub fn get_node(&self, pid: Handle) -> (r: Option<&Node>)
        ensures
            r is Some <==> self.node(pid) is Some,
            r matches Some(n) ==> self.node(pid) == Some(*n),
    {
        match self.find_index(pid) {
            Some(i) => Some(&self.nodes[i]),
            None => None,
        }
    }

    /// The node with handle `pid`, if any, for modification.
    pub fn get_node_mut(&mut self, pid: Handle) -> (r: Option<&mut Node>)
        ensures
            r is Some <==> old(self).node(pid) is Some,
            r matches Some(n) ==> old(self).node(pid) == Some(*n)
                && final(self).nodes() == old(self).nodes().update(pid_index(old(self).nodes(), pid), *final(n)),
            r is None ==> final(self).nodes() == old(self).nodes(),
            final(self).deps() == old(self).deps(),
            final(self).next_id() == old(self).next_id(),
    {
        match self.find_index(pid) {
            Some(i) => Some(&mut self.nodes[i]),
            None => None,
        }
    }

    /// Sets the state of the node `pid`; does nothing if there is no such node.
    pub fn set_state(&mut self, pid: Handle, state: NodeState)
        ensures
            final(self).nodes() == (match old(self).node(pid) {
                Some(n) => old(self).nodes().update(pid_index(old(self).nodes(), pid), Node { state, ..n }),
                None => old(self).nodes(),
            }),
            final(self).deps() == old(self).deps(),
            final(self).next_id() == old(self).next_id(),
            old(self).fresh_ids() ==> final(self).fresh_ids(),
    {
        if let Some(i) = self.find_index(pid) {
            let ghost d0 = *self;
            let ghost n = Node { state, ..d0.nodes()[i as int] };
            self.nodes[i].state = state;
            proof {
                assert(self.nodes() =~= d0.nodes().update(i as int, n));
                if d0.fresh_ids() {
                    lemma_fresh_ids_update(d0, *self, i as int, n);
                }
            }
        }
    }

    /// Sets the exit code of the node `pid`; does nothing if there is no such node.
    pub fn set_exit_code(&mut self, pid: Handle, exit_code: i32)
        ensures
            final(self).nodes() == (match old(self).node(pid) {
                Some(n) => old(self).nodes().update(pid_index(old(self).nodes(), pid), Node { exit_code, ..n }),
                None => old(self).nodes(),
            }),
            final(self).deps() == old(self).deps(),
            final(self).next_id() == old(self).next_id(),
            old(self).fresh_ids() ==> final(self).fresh_ids(),
    {
        if let Some(i) = self.find_index(pid) {
            let ghost d0 = *self;
            let ghost n = Node { exit_code, ..d0.nodes()[i as int] };
            self.nodes[i].exit_code = exit_code;
            proof {
                assert(self.nodes() =~= d0.nodes().update(i as int, n));
                if d0.fresh_ids() {
                    lemma_fresh_ids_update(d0, *self, i as int, n);
                }
            }
        }
    }

    /// Records that `node` depends on `dependency`.
    pub fn add_dependency(&mut self, node: For, dependency: DependsOn)
        ensures
            final(self).deps() == old(self).deps().push((node.0, dependency.0)),
            final(self).nodes() == old(self).nodes(),
            final(self).next_id() == old(self).next_id(),
            old(self).fresh_ids() ==> final(self).fresh_ids(),
    {
        let For(for_node) = node;
        let DependsOn(depends_on) = dependency;
        self.deps.push((for_node, depends_on));
    }

    /// The direct dependencies of `pid`, in the order they were added.
    pub fn get_direct_dependencies(&self, pid: Handle) -> (r: Vec<Handle>)
        ensures
            r@ == direct_deps(self.deps(), pid),
    {
        let mut r: Vec<Handle> = Vec::new();
        let mut i: usize = 0;
        while i < self.deps.len()
            invariant
                i <= self.deps@.len(),
                r@ == direct_deps(self.deps@.subrange(0, i as int), pid),
            decreases self.deps@.len() - i,
        {
            assert(self.deps@.subrange(0, i + 1).drop_last() =~= self.deps@.subrange(0, i as int));
            let (f, d) = self.deps[i];
            if f == pid {
                r.push(d);
            }
            i = i + 1;
        }
        assert(self.deps@.subrange(0, i as int) =~= self.deps@);
        r
    }

    /// The direct dependents of `pid`, in the order they were added.
    pub fn get_direct_dependents(&self, pid: Handle) -> (r: Vec<Handle>)
        ensures
            r@ == direct_dependents(self.deps(), pid),
    {
        let mut r: Vec<Handle> = Vec::new();
        let mut i: usize = 0;
        while i < self.deps.len()
            invariant
                i <= self.deps@.len(),
                r@ == direct_dependents(self.deps@.subrange(0, i as int), pid),
            decreases self.deps@.len() - i,
        {
            assert(self.deps@.subrange(0, i + 1).drop_last() =~= self.deps@.subrange(0, i as int));
            let (f, d) = self.deps[i];
            if d == pid {
                r.push(f);
            }
            i = i + 1;
        }
        assert(self.deps@.subrange(0, i as int) =~= self.deps@);
        r
    }
}

/// Law: changing a node in place while keeping its handle keeps the handles fresh, so
/// a change through `get_node_mut` that leaves `pid` alone keeps `fresh_ids`.
pub proof fn lemma_fresh_ids_update(before: Dag, after: Dag, k: int, n: Node)
    requires
        before.fresh_ids(),
        0 <= k < before.nodes().len(),
        n.pid == before.nodes()[k].pid,
        after.nodes() == before.nodes().update(k, n),
        after.next_id() == before.next_id(),
    ensures
        after.fresh_ids(),
{
    assert forall|i: int| 0 <= i < after.nodes().len() implies after.nodes()[i].pid.spec_id() < after.next_id() by {
        assert(after.nodes()[i].pid == before.nodes()[i].pid);
    }
    assert forall|i: int, j: int|
        0 <= i < after.nodes().len() && 0 <= j < after.nodes().len() && i != j implies after.nodes()[i].pid
        != after.nodes()[j].pid by {
        assert(after.nodes()[i].pid == before.nodes()[i].pid);
        assert(after.nodes()[j].pid == before.nodes()[j].pid);
    }
}

/// Law: a lookup right after adding a node finds that node, provided ids are fresh.
pub proof fn lemma_add_then_lookup(before: Seq<Node>, n: Node)
    requires
        forall|i: int| 0 <= i < before.len() ==> before[i].pid != n.pid,
    ensures
        lookup(before.push(n), n.pid) == Some(n),
{
    let nodes = before.push(n);
    assert(is_first_index(nodes, n.pid, before.len() as int));
    lemma_first_index_unique(nodes, n.pid, before.len() as int);
}

/// Replacing the node that a lookup of `pid` finds by one with the same handle
/// changes that lookup only.
pub proof fn lemma_replace_lookup(nodes: Seq<Node>, pid: Handle, n2: Node, q: Handle)
    requires
        has_pid(nodes, pid),
        n2.pid == pid,
    ensures
        lookup(nodes.update(pid_index(nodes, pid), n2), q) == if q == pid {
            Some(n2)
        } else {
            lookup(nodes, q)
        },
{
    lemma_first_index_exists(nodes, pid);
    let i = pid_index(nodes, pid);
    let nn = nodes.update(i, n2);
    assert forall|j: int| 0 <= j < nn.len() implies #[trigger] nn[j].pid == nodes[j].pid by {}
    if q == pid {
        assert(is_first_index(nn, pid, i));
        lemma_first_index_unique(nn, pid, i);
    } else {
        if has_pid(nodes, q) {
            lemma_first_index_exists(nodes, q);
            let k = pid_index(nodes, q);
            assert(is_first_index(nn, q, k));
            lemma_first_index_unique(nn, q, k);
            assert(nn[k] == nodes[k]);
        } else {
            assert(!has_pid(nn, q)) by {
                if has_pid(nn, q) {
                    let k = choose|k: int| 0 <= k < nn.len() && nn[k].pid == q;
                    assert(nodes[k].pid == q);
                }
            }
        }
    }
}

/// Whether `n` is an alias node named `name`.
pub open spec fn is_alias_named(n: Node, name: Seq<char>) -> bool {
    n.kind == NodeKind::Alias && n.idname@ == name
}

/// The index of the first alias node named `name`, if any.
pub open spec fn first_alias_index(nodes: Seq<Node>, name: Seq<char>) -> Option<int> {
    if exists|i: int| 0 <= i < nodes.len() && is_alias_named(nodes[i], name) {
        Some(
            choose|i: int|
                0 <= i < nodes.len() && is_alias_named(nodes[i], name) && forall|j: int|
                    0 <= j < i ==> !is_alias_named(#[trigger] nodes[j], name),
        )
    } else {
        None
    }
}

} // verus!
