//! `MergeReader`: sequential reader over the outputs of an actor's dependencies.
//!
//! When one dependency's reader reaches end of data, the merge reader switches
//! to the next dependency. For each dependency the data source is the pipe
//! pool (live pipe), or, when the producer has terminated without a pipe, the
//! completed buffer in the store.

use vstd::prelude::*;

use crate::dag::{Dag, NodeState};
use crate::kv::path_target;
use crate::errno::{EBADF, EIO};
use crate::idgen::{Handle, HandleKind, IdGen};
use crate::pipe::{
    create_reader_from_completed, entry_state, key_index, pipe_path, pipe_path_spec, realized_slot, read_count, reader_error, wait_action, LatentState, PipeError,
    PipePool, ReadStep, Reader, WaitAction, Writer, WriterState,
};
use crate::resolve::{lemma_resolve_next, lemma_resolve_next_none, resolve_next, unvisited_count, OwnedDependencyIterator};

verus! {

/// Dependencies always write their output to stdout, fd 1.
pub const DEPENDENCY_FD: isize = 1;

/// Outcome of looking for the next dependency's reader.
enum NextReader {
    Got(Reader),
    NoMore,
    Wait,
    Failed,
}

/// Whether no reader can be had for the dependency `dep` (its handle, and its state when
/// it was taken) in `pool`: its producer terminated without creating its pipe, or it has
/// terminated without a pipe and with no stored output at its pipe path.
pub open spec fn dep_unavailable(pool: PipePool, dep: (Handle, NodeState)) -> bool {
    match entry_state(pool.entries(), (dep.0, DEPENDENCY_FD)) {
        Some(WriterState::Latent(LatentState::Closed)) => true,
        Some(WriterState::Realized(_)) => false,
        _ => dep.1 == NodeState::Terminated && path_target(pool.kv().paths(), pipe_path_spec(dep.0, DEPENDENCY_FD))
            is None,
    }
}

/// Whether a dependency that the merge reader took on its way from `before` to `after`
/// (the one it was waiting for, or one its iterator newly reached) has no reader to be
/// had in `pool`.
pub open spec fn took_unavailable(before: MergeReader, after: MergeReader, dag: Dag, pool: PipePool) -> bool {
    ||| before.pending() matches Some(p) && dep_unavailable(pool, p)
    ||| exists|h: Handle|
        !before.iter().visited().contains(h) && #[trigger] after.iter().visited().contains(h) && (dag.node(h) matches Some(
            n,
        ) && dep_unavailable(pool, (h, n.state)))
}

/// The dependency that the merge reader `m` takes next, when it awaits none: the next
/// one its iterator yields.
pub open spec fn next_dependency(m: MergeReader, dag: Dag) -> Option<Handle> {
    if m.pending() is Some {
        None
    } else {
        resolve_next(dag.nodes(), dag.deps(), m.iter().to_visit(), m.iter().visited()).0
    }
}

/// The realized writer of the dependency that `m` takes next, if it has one in `pool`.
pub open spec fn next_realized(m: MergeReader, dag: Dag, pool: PipePool) -> Option<Writer> {
    match next_dependency(m, dag) {
        Some(h) => match entry_state(pool.entries(), (h, DEPENDENCY_FD)) {
            Some(WriterState::Realized(w)) => Some(w),
            _ => None,
        },
        None => None,
    }
}

/// What a read gives when the merge reader has no current reader and the dependency it
/// takes next has a realized pipe: the first bytes of that pipe when it holds data;
/// `Wait` when it holds none and its writer is still open without error.
pub open spec fn reads_next_pipe(m: MergeReader, dag: Dag, pool: PipePool, buf_len: nat, r: ReadStep, after: MergeReader, out: Seq<u8>) -> bool {
    m.current() is None && buf_len > 0 ==> match next_realized(m, dag, pool) {
        Some(w) => {
            let data = pool.content(w.slot());
            let s = pool.slots()[w.slot() as int];
            &&& data.len() > 0 ==> (r matches ReadStep::Done(Ok(n)) && 0 < n && n <= data.len() && (after.current() matches Some(
                rd,
            ) && rd.slot() == w.slot() && rd.pos() == n) && out.subrange(0, n as int) == data.subrange(0, n as int))
            &&& data.len() == 0 && s.errno == 0 && !s.closed ==> r == ReadStep::Wait
        },
        None => true,
    }
}

/// What a read gives when the merge reader has a current reader that is not closed: its
/// next bytes when data remains (and the buffer is not empty), keeping it current with its
/// position advanced; `Wait` when its writer is open and all data is read; its error when
/// it has one, or when the writer's error is reached after all data.
pub open spec fn reads_current(m: MergeReader, pool: PipePool, buf_len: nat, r: ReadStep, after: MergeReader, out: Seq<u8>) -> bool {
    match m.current() {
        None => true,
        Some(rd0) => !rd0.own_closed() ==> {
        let data = pool.content(rd0.slot());
        let s = pool.slots()[rd0.slot() as int];
        let pos = rd0.pos();
        let wa = wait_action(rd0.own_errno(), pos, data.len(), s);
        &&& wa == WaitAction::DontWait && buf_len > 0 ==> {
            let n = read_count(pos, data.len(), buf_len);
            &&& r == ReadStep::Done(Ok(n as usize))
            &&& n > 0
            &&& after.current() matches Some(rd) && rd.same_but_pos(rd0) && rd.pos() == pos + n
            &&& out.subrange(0, n as int) == data.subrange(pos as int, (pos + n) as int)
        }
        &&& wa == WaitAction::Wait ==> r == ReadStep::Wait && (after.current() matches Some(rd) && rd.same_but_pos(rd0)
            && rd.pos() == pos)
        &&& wa == WaitAction::Error ==> r == ReadStep::Done(Err(reader_error(rd0.own_errno(), s.errno)))
            && (after.current() matches Some(rd) && rd.same_but_pos(rd0) && rd.pos() == pos)
        },
    }
}

/// Whether `reads_current` asks for a particular outcome.
pub open spec fn current_decides(m: MergeReader, pool: PipePool, buf_len: nat) -> bool {
    m.current() matches Some(rd0) && !rd0.own_closed() && {
        let wa = wait_action(
            rd0.own_errno(),
            rd0.pos(),
            pool.content(rd0.slot()).len(),
            pool.slots()[rd0.slot() as int],
        );
        (wa == WaitAction::DontWait && buf_len > 0) || wa == WaitAction::Wait || wa == WaitAction::Error
    }
}

/// Whether `reads_next_pipe` asks for a particular outcome.
pub open spec fn next_pipe_decides(m: MergeReader, dag: Dag, pool: PipePool, buf_len: nat) -> bool {
    m.current() is None && buf_len > 0 && match next_realized(m, dag, pool) {
        Some(w) => {
            let data = pool.content(w.slot());
            let s = pool.slots()[w.slot() as int];
            data.len() > 0 || (s.errno == 0 && !s.closed)
        },
        None => false,
    }
}

/// A reader that sequentially reads from multiple dependency inputs.
pub struct MergeReader {
    current_reader: Option<Reader>,
    pending: Option<(Handle, NodeState)>,
    dep_iterator: OwnedDependencyIterator,
    own_closed: bool,
}

impl MergeReader {
    /// The reader of the current dependency, if any.
    pub closed spec fn current(self) -> Option<Reader> {
        self.current_reader
    }

    /// The dependency whose pipe is awaited, if any.
    pub closed spec fn pending(self) -> Option<(Handle, NodeState)> {
        self.pending
    }

    /// The dependency iterator.
    pub closed spec fn iter(self) -> OwnedDependencyIterator {
        self.dep_iterator
    }

    /// Whether this merge reader has been closed.
    pub closed spec fn is_closed(self) -> bool {
        self.own_closed
    }

    /// The merge reader fits the pool: its current reader reads a pipe of the pool
    /// within its data, and it never has both a current reader and an awaited one.
    pub open spec fn wf_in(self, pool: PipePool) -> bool {
        &&& self.current() matches Some(rd) ==> rd.slot() < pool.slots().len() && rd.pos() <= pool.content(
            rd.slot(),
        ).len()
        &&& !(self.current() is Some && self.pending() is Some)
    }

    /// How many steps remain before the next dependency is taken from the iterator.
    pub open spec fn stage(self) -> nat {
        (if self.current() is Some { 1nat } else { 0nat }) + (if self.pending() is Some { 1nat } else { 0nat })
    }

    /// Whether the reader `rd` has reached the end of its pipe in `pool`: it is closed, or
    /// all data is read and the writer has closed without error.
    pub open spec fn reader_at_end(rd: Reader, pool: PipePool) -> bool {
        rd.own_closed() || wait_action(
            rd.own_errno(),
            rd.pos(),
            pool.content(rd.slot()).len(),
            pool.slots()[rd.slot() as int],
        ) == WaitAction::Closed
    }

    /// Create a merge reader over the dependencies that `dep_iterator` yields.
    pub fn new(dep_iterator: OwnedDependencyIterator) -> (m: Self)
        ensures
            m.current() is None,
            m.pending() is None,
            m.iter() == dep_iterator,
            !m.is_closed(),
    {
        Self { current_reader: None, pending: None, dep_iterator, own_closed: false }
    }

    /// The fit of the merge reader survives an extension of the pool.
    pub proof fn lemma_wf_in_extends(self, old: PipePool, new: PipePool)
        requires
            old.wf(),
            new.extends(old),
            self.wf_in(old),
        ensures
            self.wf_in(new),
    {
        if let Some(rd) = self.current() {
            new.lemma_content_grows(old, rd.slot());
        }
    }

    fn create_next_reader(&mut self, pool: &mut PipePool, dag: &Dag, id_gen: &mut IdGen) -> (r: NextReader)
        requires
            old(pool).wf(),
            old(self).current() is None,
        ensures
            final(pool).wf(),
            final(pool).extends(*old(pool)),
            final(self).current() == old(self).current(),
            final(self).is_closed() == old(self).is_closed(),
            match r {
                NextReader::Got(rd) => rd.slot() < final(pool).slots().len() && rd.pos() == 0
                    && final(self).pending() is None,
                NextReader::Wait => final(self).pending() matches Some(p) && entry_state(
                    final(pool).entries(),
                    (p.0, DEPENDENCY_FD),
                ) == Some(WriterState::Latent(LatentState::Waiting)),
                NextReader::NoMore => final(self).pending() is None && final(self).iter().to_visit().len() == 0,
                NextReader::Failed => final(self).pending() is None && match old(self).pending() {
                    Some(p) => dep_unavailable(*final(pool), p),
                    None => resolve_next(dag.nodes(), dag.deps(), old(self).iter().to_visit(), old(self).iter().visited()).0 matches Some(h)
                        && (dag.node(h) matches Some(n) && dep_unavailable(*final(pool), (h, n.state))),
                },
            },
            forall|x: Handle| old(self).iter().visited().contains(x) ==> #[trigger] final(self).iter().visited().contains(x),
            next_realized(*old(self), *dag, *old(pool)) matches Some(w) ==> (r matches NextReader::Got(rd) && rd.slot()
                == w.slot() && rd.pos() == 0 && !rd.own_closed() && rd.own_errno() == 0 && w.slot() < old(pool).slots().len()
                && final(pool).content(w.slot()) == old(pool).content(w.slot()) && final(pool).slots()[w.slot() as int].errno
                == old(pool).slots()[w.slot() as int].errno && final(pool).slots()[w.slot() as int].closed == old(
                pool,
            ).slots()[w.slot() as int].closed),
            old(self).pending() is Some ==> final(self).iter() == old(self).iter(),
            old(self).pending() is None ==> ({
                let (h, tv, v) = resolve_next(
                    dag.nodes(),
                    dag.deps(),
                    old(self).iter().to_visit(),
                    old(self).iter().visited(),
                );
                &&& final(self).iter().to_visit() == tv
                &&& final(self).iter().visited() == v
                &&& h is None ==> r is NoMore
                &&& h is Some ==> unvisited_count(dag.nodes(), v) < unvisited_count(
                    dag.nodes(),
                    old(self).iter().visited(),
                )
            }),
    {
        proof {
            pool.lemma_extends_self();
            lemma_resolve_next(dag.nodes(), dag.deps(), self.dep_iterator.to_visit(), self.dep_iterator.visited());
        }
        let dep = match self.pending.take() {
            Some(d) => d,
            None => match self.dep_iterator.next(dag) {
                Some(d) => d,
                None => {
                    proof {
                        lemma_resolve_next_none(dag.nodes(), dag.deps(), old(self).dep_iterator.to_visit(), old(self).dep_iterator.visited());
                    }
                    return NextReader::NoMore;
                },
            },
        };
        let (dep_handle, dep_state) = dep;
        let allow_latent = dep_state != NodeState::Terminated;
        let ghost p0 = *pool;
        match pool.get_or_await_new_reader((dep_handle, DEPENDENCY_FD), allow_latent, id_gen) {
            Ok(Some(rd)) => {
                proof {
                    let key = (dep_handle, DEPENDENCY_FD);
                    if let Some(i) = key_index(p0.entries(), key) {
                        assert(realized_slot(p0.entries()[i].2) < p0.slots().len());
                    }
                }
                NextReader::Got(rd)
            },
            Ok(None) => {
                proof {
                    let key = (dep_handle, DEPENDENCY_FD);
                    if key_index(p0.entries(), key) is None {
                        let e = pool.entries();
                        let n = p0.entries().len() as int;
                        assert(e[n].0 == key.0 && e[n].1 == key.1);
                        let i = choose|i: int| 0 <= i < e.len() && e[i].0 == key.0 && e[i].1 == key.1;
                        if i < n {
                            assert(p0.entries()[i] == e[i]);
                        }
                    }
                }
                self.pending = Some(dep);
                NextReader::Wait
            },
            Err(PipeError::WouldBlock) => {
                if dep_state == NodeState::Terminated {
                    let path = pipe_path(dep_handle, DEPENDENCY_FD);
                    let rh = id_gen.get_next_traced(HandleKind::PipeReader, dep_handle, None);
                    let ghost p1 = *pool;
                    match create_reader_from_completed(pool, rh, path.as_str()) {
                        Ok(rd) => {
                            proof { pool.lemma_extends_trans(p1, *old(pool)); }
                            NextReader::Got(rd)
                        },
                        Err(_) => {
                            proof { pool.lemma_extends_trans(p1, *old(pool)); }
                            NextReader::Failed
                        },
                    }
                } else {
                    NextReader::Failed
                }
            },
            Err(PipeError::PipeClosed) => NextReader::Failed,
        }
    }

    /// Read data from the merged dependency stream.
    ///
    /// - `Done(Ok(n))`, `n > 0`: bytes of the current dependency's output
    /// - `Done(Ok(0))`: all dependencies exhausted
    /// - `Done(Err(EIO))`: no reader could be had for a dependency; or the current
    ///   reader's error
    /// - `Wait`: a dependency's pipe or data is not there yet; read again after
    ///   the pool's notification
    ///
    /// The handles of the readers it opens come from the DAG's generator of handles.
    pub fn read(&mut self, pool: &mut PipePool, dag: &mut Dag, buf: &mut [u8]) -> (r: ReadStep)
        requires
            old(pool).wf(),
            old(self).wf_in(*old(pool)),
        ensures
            final(dag).nodes() == old(dag).nodes(),
            final(dag).deps() == old(dag).deps(),
            final(pool).wf(),
            final(pool).extends(*old(pool)),
            final(self).wf_in(*final(pool)),
            final(self).is_closed() == old(self).is_closed(),
            final(buf)@.len() == old(buf)@.len(),
            reads_next_pipe(*old(self), *old(dag), *old(pool), old(buf)@.len(), r, *final(self), final(buf)@),
            reads_current(*old(self), *old(pool), old(buf)@.len(), r, *final(self), final(buf)@),
            match r {
                ReadStep::Done(Ok(n)) => if n == 0 {
                    &&& final(self).current() is None
                    &&& final(self).pending() is None
                    &&& final(self).iter().to_visit().len() == 0
                    &&& old(self).current() matches Some(rd0) ==> Self::reader_at_end(rd0, *old(pool))
                        || old(buf)@.len() == 0
                } else {
                    final(self).current() matches Some(rd) && {
                        &&& n <= old(buf)@.len()
                        &&& n <= rd.pos()
                        &&& final(buf)@.subrange(0, n as int) == final(pool).content(rd.slot()).subrange(
                            rd.pos() - n,
                            rd.pos() as int,
                        )
                        &&& match old(self).current() {
                            Some(rd0) => (rd.same_but_pos(rd0) && rd.pos() == rd0.pos() + n) || (Self::reader_at_end(
                                rd0,
                                *old(pool),
                            ) && rd.pos() == n),
                            None => rd.pos() == n,
                        }
                    }
                },
                ReadStep::Done(Err(e)) => {
                    ||| final(self).current() is None && e == EIO && took_unavailable(*old(self), *final(self), *old(dag), *final(pool))
                    ||| final(self).current() matches Some(rd) && !rd.own_closed() && wait_action(
                        rd.own_errno(),
                        rd.pos(),
                        final(pool).content(rd.slot()).len(),
                        final(pool).slots()[rd.slot() as int],
                    ) == WaitAction::Error && e == reader_error(
                        rd.own_errno(),
                        final(pool).slots()[rd.slot() as int].errno,
                    )
                },
                ReadStep::Wait => {
                    ||| final(self).current() matches Some(rd) && !rd.own_closed() && wait_action(
                        rd.own_errno(),
                        rd.pos(),
                        final(pool).content(rd.slot()).len(),
                        final(pool).slots()[rd.slot() as int],
                    ) == WaitAction::Wait
                    ||| final(self).pending() matches Some(p) && entry_state(
                        final(pool).entries(),
                        (p.0, DEPENDENCY_FD),
                    ) == Some(WriterState::Latent(LatentState::Waiting))
                },
            },
    {
        let mut ids = dag.swap_idgen(IdGen::new());
        let r = self.read_with(pool, dag, &mut ids, buf);
        let _ = dag.swap_idgen(ids);
        r
    }

    /// Read data from the merged dependency stream.
    ///
    /// - `Done(Ok(n))`, `n > 0`: bytes of the current dependency's output
    /// - `Done(Ok(0))`: all dependencies exhausted
    /// - `Done(Err(EIO))`: no reader could be had for a dependency; or the current
    ///   reader's error
    /// - `Wait`: a dependency's pipe or data is not there yet; read again after
    ///   the pool's notification
    fn read_with(&mut self, pool: &mut PipePool, dag: &Dag, id_gen: &mut IdGen, buf: &mut [u8]) -> (r: ReadStep)
        requires
            old(pool).wf(),
            old(self).wf_in(*old(pool)),
        ensures
            final(pool).wf(),
            final(pool).extends(*old(pool)),
            final(self).wf_in(*final(pool)),
            final(self).is_closed() == old(self).is_closed(),
            final(buf)@.len() == old(buf)@.len(),
            reads_next_pipe(*old(self), *dag, *old(pool), old(buf)@.len(), r, *final(self), final(buf)@),
            reads_current(*old(self), *old(pool), old(buf)@.len(), r, *final(self), final(buf)@),
            match r {
                ReadStep::Done(Ok(n)) => if n == 0 {
                    &&& final(self).current() is None
                    &&& final(self).pending() is None
                    &&& final(self).iter().to_visit().len() == 0
                    &&& old(self).current() matches Some(rd0) ==> Self::reader_at_end(rd0, *old(pool))
                        || old(buf)@.len() == 0
                } else {
                    final(self).current() matches Some(rd) && {
                        &&& n <= old(buf)@.len()
                        &&& n <= rd.pos()
                        &&& final(buf)@.subrange(0, n as int) == final(pool).content(rd.slot()).subrange(
                            rd.pos() - n,
                            rd.pos() as int,
                        )
                        &&& match old(self).current() {
                            Some(rd0) => (rd.same_but_pos(rd0) && rd.pos() == rd0.pos() + n) || (Self::reader_at_end(
                                rd0,
                                *old(pool),
                            ) && rd.pos() == n),
                            None => rd.pos() == n,
                        }
                    }
                },
                ReadStep::Done(Err(e)) => {
                    ||| final(self).current() is None && e == EIO && took_unavailable(*old(self), *final(self), *dag, *final(pool))
                    ||| final(self).current() matches Some(rd) && !rd.own_closed() && wait_action(
                        rd.own_errno(),
                        rd.pos(),
                        final(pool).content(rd.slot()).len(),
                        final(pool).slots()[rd.slot() as int],
                    ) == WaitAction::Error && e == reader_error(
                        rd.own_errno(),
                        final(pool).slots()[rd.slot() as int].errno,
                    )
                },
                ReadStep::Wait => {
                    ||| final(self).current() matches Some(rd) && !rd.own_closed() && wait_action(
                        rd.own_errno(),
                        rd.pos(),
                        final(pool).content(rd.slot()).len(),
                        final(pool).slots()[rd.slot() as int],
                    ) == WaitAction::Wait
                    ||| final(self).pending() matches Some(p) && entry_state(
                        final(pool).entries(),
                        (p.0, DEPENDENCY_FD),
                    ) == Some(WriterState::Latent(LatentState::Waiting))
                },
            },
    {
        proof { pool.lemma_extends_self(); }
        let ghost mut moved = false;
        let ghost mut first = true;
        loop
            invariant
                pool.wf(),
                old(pool).wf(),
                pool.extends(*old(pool)),
                self.wf_in(*pool),
                self.is_closed() == old(self).is_closed(),
                buf@.len() == old(buf)@.len(),
                !moved ==> *pool == *old(pool) && self.current() == old(self).current(),
                moved ==> (old(self).current() matches Some(rd0) ==> Self::reader_at_end(rd0, *old(pool))
                    || old(buf)@.len() == 0),
                moved ==> (self.current() matches Some(c) ==> c.pos() == 0),
                self.pending() is Some ==> self.pending() == old(self).pending(),
                first ==> *pool == *old(pool) && *self == *old(self),
                !first ==> !next_pipe_decides(*old(self), *dag, *old(pool), old(buf)@.len()),
                !first ==> !current_decides(*old(self), *old(pool), old(buf)@.len()),
                forall|x: Handle| old(self).iter().visited().contains(x) ==> #[trigger] self.iter().visited().contains(x),
            decreases unvisited_count(dag.nodes(), self.iter().visited()), self.stage(),
        {
            let ghost u0 = unvisited_count(dag.nodes(), self.iter().visited());
            let ghost st0 = self.stage();
            if self.current_reader.is_none() {
                proof { moved = true; }
                let ghost p0 = *pool;
                let ghost had_pending = self.pending is Some;
                let ghost it0 = self.iter();
                match self.create_next_reader(pool, dag, id_gen) {
                    NextReader::Got(rd) => {
                        proof { pool.lemma_extends_trans(p0, *old(pool)); }
                        self.current_reader = Some(rd);
                    },
                    NextReader::NoMore => {
                        proof { pool.lemma_extends_trans(p0, *old(pool)); }
                        return ReadStep::Done(Ok(0));
                    },
                    NextReader::Wait => {
                        proof { pool.lemma_extends_trans(p0, *old(pool)); }
                        return ReadStep::Wait;
                    },
                    NextReader::Failed => {
                        proof {
                            pool.lemma_extends_trans(p0, *old(pool));
                            if !had_pending {
                                let (h, tv, v) = resolve_next(dag.nodes(), dag.deps(), it0.to_visit(), it0.visited());
                                lemma_resolve_next(dag.nodes(), dag.deps(), it0.to_visit(), it0.visited());
                                let h = h->0;
                                assert(!old(self).iter().visited().contains(h));
                                assert(self.iter().visited().contains(h));
                            }
                        }
                        return ReadStep::Done(Err(EIO));
                    },
                }
                assert(had_pending ==> unvisited_count(dag.nodes(), self.iter().visited()) == u0);
            }
            let mut rd = match self.current_reader.take() {
                Some(rd) => rd,
                None => { return ReadStep::Done(Ok(0)); },
            };
            let ghost p1 = *pool;
            let ghost rd0 = rd;
            let ghost b0 = buf@;
            match rd.read(pool, buf) {
                ReadStep::Done(Ok(n)) => {
                    if n == 0 {
                        proof {
                            if first && old(self).current() is None && old(buf)@.len() > 0 {
                                if let Some(w) = next_realized(*old(self), *dag, *old(pool)) {
                                    assert(rd0.slot() == w.slot() && rd0.pos() == 0);
                                    assert(p1.content(w.slot()) == old(pool).content(w.slot()));
                                }
                            }
                        }
                        let _ = rd.close(pool);
                        proof {
                            pool.lemma_extends_trans(p1, *old(pool));
                            moved = true;
                            first = false;
                        }
                    } else {
                        proof {
                            let data = pool.content(rd0.slot());
                            assert(!rd0.own_closed());
                            assert(wait_action(rd0.own_errno(), rd0.pos(), data.len(), pool.slots()[rd0.slot() as int])
                                == WaitAction::DontWait);
                            assert(n == read_count(rd0.pos(), data.len(), b0.len()));
                            assert(buf@ == data.subrange(rd0.pos() as int, (rd0.pos() + n) as int) + b0.subrange(n as int, b0.len() as int));
                        }
                        assert(buf@.subrange(0, n as int) =~= pool.content(rd.slot()).subrange(
                            rd.pos() - n,
                            rd.pos() as int,
                        ));
                        self.current_reader = Some(rd);
                        return ReadStep::Done(Ok(n));
                    }
                },
                ReadStep::Done(Err(e)) => {
                    self.current_reader = Some(rd);
                    return ReadStep::Done(Err(e));
                },
                ReadStep::Wait => {
                    self.current_reader = Some(rd);
                    return ReadStep::Wait;
                },
            }
        }
    }

    /// Close the merge reader and its current reader.
    ///
    /// Returns `Err(EBADF)` if already closed, or the error of closing the current reader.
    pub fn close(&mut self, pool: &mut PipePool) -> (r: Result<(), i32>)
        requires
            old(pool).wf(),
            old(self).wf_in(*old(pool)),
        ensures
            final(pool).wf(),
            final(pool).extends(*old(pool)),
            final(self).is_closed(),
            final(self).pending() == old(self).pending(),
            old(self).is_closed() ==> r == Err::<(), i32>(EBADF) && final(self).current() == old(self).current(),
            !old(self).is_closed() ==> final(self).current() is None && match old(self).current() {
                None => r is Ok,
                Some(rd) => (rd.own_closed() ==> r == Err::<(), i32>(EBADF)) && (!rd.own_closed() ==> r is Ok),
            },
    {
        proof { pool.lemma_extends_self(); }
        if self.own_closed {
            return Err(EBADF);
        }
        self.own_closed = true;
        let result = match self.current_reader.take() {
            Some(mut rd) => {
                let res = rd.close(pool);
                res
            },
            None => Ok(()),
        };
        result
    }
}

} // verus!
