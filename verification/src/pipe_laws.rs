//! Laws of pipes: what readers see of what writers wrote, and how the pool's
//! requests relate to one another.

use vstd::prelude::*;

use crate::errno::EPIPE;
use crate::idgen::Handle;
use crate::pipe::{
    close_latents_of, entry_state, key_index, read_count, reader_error, remove_key, shut_slot,
    touch_ok, reader_request_ok, unique_keys, wait_action, LatentState, PipeError, PipePool,
    SharedBuffer, WaitAction, WriterState, owns_slot,
};

verus! {

/// Law: a reader whose position is the end of what was written before `data`
/// (and that has no error of its own) reads back exactly `data`, whatever state
/// the writer is in, when its buffer can hold it.
pub proof fn lemma_read_returns_written(before: Seq<u8>, data: Seq<u8>, s: SharedBuffer, cap: nat)
    requires
        data.len() > 0,
        cap >= data.len(),
    ensures
        wait_action(0, before.len(), (before + data).len(), s) == WaitAction::DontWait,
        read_count(before.len(), (before + data).len(), cap) == data.len(),
        (before + data).subrange(before.len() as int, (before.len() + data.len()) as int) == data,
{
    assert((before + data).subrange(before.len() as int, (before.len() + data.len()) as int) =~= data);
}

/// Law: reads never skip data. A read at `pos` takes the bytes right after `pos`,
/// at most as many as asked for, and at least one while data remains.
pub proof fn lemma_read_is_prefix(content: Seq<u8>, pos: nat, cap: nat)
    requires
        pos < content.len(),
        cap > 0,
    ensures
        0 < read_count(pos, content.len(), cap) <= cap,
        pos + read_count(pos, content.len(), cap) <= content.len(),
{
}

/// Law: a writer's error reaches its readers only after they have read all data:
/// while data remains the reader reads it; at the end it gets EPIPE, whatever
/// the writer's errno was.
pub proof fn lemma_error_after_data(pos: nat, len: nat, s: SharedBuffer)
    requires
        s.errno != 0,
        pos <= len,
    ensures
        pos < len ==> wait_action(0, pos, len, s) == WaitAction::DontWait,
        pos == len ==> wait_action(0, pos, len, s) == WaitAction::Error && reader_error(0, s.errno) == EPIPE,
{
}

/// Law: a reader of a closed pipe without error that has read all data is at end
/// of data; a reader of an open pipe in that position waits.
pub proof fn lemma_end_of_data(len: nat, s: SharedBuffer)
    requires
        s.errno == 0,
    ensures
        s.closed ==> wait_action(0, len, len, s) == WaitAction::Closed,
        !s.closed ==> wait_action(0, len, len, s) == WaitAction::Wait,
{
}

/// The bytes that successive reads take from a pipe holding `data`, from position `pos`,
/// with buffers of sizes `caps`, as `Reader::read` states them for a reader without
/// error of its own on a pipe whose writer closed without error: while data remains, a
/// read takes the next bytes, as many as its buffer holds and data remains; once all is
/// read, every read is end of data and takes nothing.
pub open spec fn reads_from(data: Seq<u8>, pos: nat, caps: Seq<nat>) -> Seq<u8>
    decreases caps.len(),
{
    if caps.len() == 0 || pos >= data.len() {
        Seq::empty()
    } else {
        let n = read_count(pos, data.len(), caps[0]);
        data.subrange(pos as int, (pos + n) as int) + reads_from(data, pos + n, caps.drop_first())
    }
}

/// Law (round trip): whatever was written before the writer closed without error is
/// read back exactly, in order, by any sequence of reads with non-empty buffers that is
/// long enough (one read per byte always is), each read taking between one byte and its
/// buffer's size; after the end of data every read is end of data.
pub proof fn lemma_read_round_trip(data: Seq<u8>, pos: nat, caps: Seq<nat>, s: SharedBuffer)
    requires
        s.closed,
        s.errno == 0,
        pos <= data.len(),
        caps.len() >= data.len() - pos,
        forall|i: int| 0 <= i < caps.len() ==> #[trigger] caps[i] > 0,
    ensures
        reads_from(data, pos, caps) == data.subrange(pos as int, data.len() as int),
        pos < data.len() ==> wait_action(0, pos, data.len(), s) == WaitAction::DontWait && 1 <= read_count(
            pos,
            data.len(),
            caps[0],
        ) <= caps[0],
        wait_action(0, data.len(), data.len(), s) == WaitAction::Closed,
    decreases caps.len(),
{
    if caps.len() == 0 || pos >= data.len() {
        assert(data.subrange(pos as int, data.len() as int) =~= Seq::<u8>::empty());
    } else {
        let n = read_count(pos, data.len(), caps[0]);
        assert(caps[0] > 0);
        let rest = caps.drop_first();
        assert forall|i: int| 0 <= i < rest.len() implies #[trigger] rest[i] > 0 by {
            assert(rest[i] == caps[i + 1]);
        }
        lemma_read_round_trip(data, pos + n, rest, s);
        assert(data.subrange(pos as int, (pos + n) as int) + data.subrange((pos + n) as int, data.len() as int)
            =~= data.subrange(pos as int, data.len() as int));
    }
}

/// Law: a reader's own error takes precedence over everything, data included.
pub proof fn lemma_own_error_first(own_errno: i32, pos: nat, len: nat, s: SharedBuffer)
    requires
        own_errno != 0,
    ensures
        wait_action(own_errno, pos, len, s) == WaitAction::Error,
        reader_error(own_errno, s.errno) == own_errno,
{
}

proof fn lemma_entry_after_replace(e: Seq<(Handle, isize, WriterState)>, key: (Handle, isize), st: WriterState)
    requires
        unique_keys(e),
    ensures
        entry_state(remove_key(e, key).push((key.0, key.1, st)), key) == Some(st),
        unique_keys(remove_key(e, key).push((key.0, key.1, st))),
{
    let e2 = remove_key(e, key);
    let e3 = e2.push((key.0, key.1, st));
    assert forall|i: int| 0 <= i < e2.len() implies !(#[trigger] e2[i].0 == key.0 && e2[i].1 == key.1) by {
        match key_index(e, key) {
            Some(x) => {
                if i < x {
                    assert(e2[i] == e[i]);
                } else {
                    assert(e2[i] == e[i + 1]);
                }
            },
            None => {
                assert(e2[i] == e[i]);
                if e2[i].0 == key.0 && e2[i].1 == key.1 {
                    assert(exists|j: int| 0 <= j < e.len() && e[j].0 == key.0 && e[j].1 == key.1);
                }
            },
        }
    }
    assert(e3[e2.len() as int].0 == key.0 && e3[e2.len() as int].1 == key.1);
    let k = choose|k: int| 0 <= k < e3.len() && e3[k].0 == key.0 && e3[k].1 == key.1;
    if k < e2.len() {
        assert(e3[k] == e2[k]);
    }
    assert(k == e2.len());
    assert forall|i: int, j: int| 0 <= i < e3.len() && 0 <= j < e3.len() && i != j implies !(
    #[trigger] e3[i].0 == #[trigger] e3[j].0 && e3[i].1 == e3[j].1) by {
        if i < e2.len() && j < e2.len() {
            match key_index(e, key) {
                Some(x) => {
                    let oi = if i < x { i } else { i + 1 };
                    let oj = if j < x { j } else { j + 1 };
                    assert(e2[i] == e[oi]);
                    assert(e2[j] == e[oj]);
                },
                None => {},
            }
        } else if i < e2.len() {
            assert(e3[i] == e2[i]);
        } else {
            assert(e3[j] == e2[j]);
        }
    }
}

/// Law: touching a writer is idempotent. Touching the same pipe again returns
/// the writer the first touch returned, reports that it was not created, and
/// leaves the pool as it was.
pub proof fn lemma_touch_idempotent(
    p0: PipePool,
    p1: PipePool,
    p2: PipePool,
    key: (Handle, isize),
    id1: i64,
    id2: i64,
    r1: Result<(crate::pipe::Writer, bool), crate::kv::KVError>,
    r2: Result<(crate::pipe::Writer, bool), crate::kv::KVError>,
)
    requires
        p0.wf(),
        touch_ok(p0, p1, key, id1, r1),
        touch_ok(p1, p2, key, id2, r2),
    ensures
        r1 matches Ok((w1, _)) && r2 matches Ok((w2, created)) && w1 == w2 && !created,
        p2.entries() == p1.entries(),
        p2.slots() == p1.slots(),
        p2.kv() == p1.kv(),
{
    match entry_state(p0.entries(), key) {
        Some(WriterState::Realized(w)) => {},
        _ => {
            if let Ok((w, _)) = r1 {
                lemma_entry_after_replace(p0.entries(), key, WriterState::Realized(w));
            }
        },
    }
}

/// Law: once a writer is touched, a request for a reader of that pipe is answered
/// at once with a reader of that writer at the start of the pipe.
pub proof fn lemma_reader_after_touch(
    p0: PipePool,
    p1: PipePool,
    p2: PipePool,
    key: (Handle, isize),
    id1: i64,
    allow_latent: bool,
    r1: Result<(crate::pipe::Writer, bool), crate::kv::KVError>,
    r2: Result<Option<crate::pipe::Reader>, PipeError>,
)
    requires
        p0.wf(),
        touch_ok(p0, p1, key, id1, r1),
        reader_request_ok(p1, p2, key, allow_latent, r2),
    ensures
        r1 matches Ok((w, _)) && r2 matches Ok(Some(rd)) && rd.slot() == w.slot() && rd.writer()
            == w.spec_handle() && rd.pos() == 0,
{
    match entry_state(p0.entries(), key) {
        Some(WriterState::Realized(w)) => {},
        _ => {
            if let Ok((w, _)) = r1 {
                lemma_entry_after_replace(p0.entries(), key, WriterState::Realized(w));
            }
        },
    }
}

/// Law: after an actor is shut down, no pipe of it is left waiting: its
/// placeholders are closed (so requests for them fail with `PipeClosed`) and its
/// writers are closed, carrying the exit code as their error when it is not 0.
pub proof fn lemma_shutdown_closes_all(
    entries: Seq<(Handle, isize, WriterState)>,
    slots: Seq<SharedBuffer>,
    actor: Handle,
    exit_code: i32,
    k: int,
)
    requires
        0 <= k < slots.len(),
        owns_slot(entries, actor, k),
    ensures
        shut_slot(slots[k], exit_code).closed,
        exit_code != 0 ==> shut_slot(slots[k], exit_code).errno == exit_code,
        forall|i: int|
            0 <= i < entries.len() && entries[i].0 == actor ==> (#[trigger] close_latents_of(entries, actor)[i]).2
                != WriterState::Latent(LatentState::Waiting),
{
}

/// Law: a request for a reader of a pipe whose placeholder was closed by a
/// shutdown fails with `PipeClosed`, whether or not latent pipes are allowed.
pub proof fn lemma_request_after_shutdown(
    p1: PipePool,
    p2: PipePool,
    key: (Handle, isize),
    allow_latent: bool,
    r: Result<Option<crate::pipe::Reader>, PipeError>,
)
    requires
        entry_state(p1.entries(), key) == Some(WriterState::Latent(LatentState::Closed)),
        reader_request_ok(p1, p2, key, allow_latent, r),
    ensures
        r == Err::<Option<crate::pipe::Reader>, PipeError>(PipeError::PipeClosed),
{
}

} // verus!
