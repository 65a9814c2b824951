//! Stream attachments: which actor streams are copied to the host's stdout or
//! stderr, or to custom sinks, when their pipes are realized.
//!
//! - Stdout: copied to the custom sinks configured for the actor (each sink once)
//! - Log, Metrics, Trace: always copied to the host's stderr
//! - Stdin, Env: never attached

use vstd::prelude::*;
use vstd::string::StringExecFns;

use crate::idgen::Handle;
use crate::std_handle::StdHandle;

verus! {

broadcast use Handle::lemma_handle_ext;

/// The sinks of `actor`, in the order they were added.
pub open spec fn sinks_of<S>(sinks: Seq<(Handle, S)>, actor: Handle) -> Seq<S>
    decreases sinks.len(),
{
    if sinks.len() == 0 {
        Seq::empty()
    } else {
        let rest = sinks_of(sinks.drop_last(), actor);
        if sinks.last().0 == actor {
            rest.push(sinks.last().1)
        } else {
            rest
        }
    }
}

/// The sinks of other actors than `actor`, in order.
pub open spec fn sinks_without<S>(sinks: Seq<(Handle, S)>, actor: Handle) -> Seq<(Handle, S)>
    decreases sinks.len(),
{
    if sinks.len() == 0 {
        Seq::empty()
    } else {
        let rest = sinks_without(sinks.drop_last(), actor);
        if sinks.last().0 == actor {
            rest
        } else {
            rest.push(sinks.last())
        }
    }
}

/// Configuration for attachment behavior: custom sinks for actors' stdout.
pub struct AttachmentConfig<S> {
    custom_sinks: Vec<(Handle, S)>,
}

impl<S> AttachmentConfig<S> {
    /// The configured sinks with their actors, in the order they were added.
    pub closed spec fn sinks(self) -> Seq<(Handle, S)> {
        self.custom_sinks@
    }

    /// Create a new empty attachment configuration
    pub fn new() -> (c: Self)
        ensures
            c.sinks() == Seq::<(Handle, S)>::empty(),
    {
        Self { custom_sinks: Vec::new() }
    }

    /// Route the stdout of an actor to a custom sink as well. Several sinks per
    /// actor are allowed; each gets its own reader.
    pub fn attach_to_sink(&mut self, actor_handle: Handle, sink: S)
        ensures
            final(self).sinks() == old(self).sinks().push((actor_handle, sink)),
    {
        self.custom_sinks.push((actor_handle, sink));
    }

    /// Take all custom sinks of this actor, removing them from the configuration.
    pub fn take_custom_sinks(&mut self, actor_handle: Handle) -> (r: Vec<S>)
        ensures
            r@ == sinks_of(old(self).sinks(), actor_handle),
            final(self).sinks() == sinks_without(old(self).sinks(), actor_handle),
    {
        let mut original: Vec<(Handle, S)> = Vec::new();
        std::mem::swap(&mut original, &mut self.custom_sinks);
        let ghost all = original@;
        let mut matching: Vec<S> = Vec::new();
        let mut remaining: Vec<(Handle, S)> = Vec::new();
        let n = original.len();
        let mut k: usize = 0;
        while original.len() > 0
            invariant
                n == all.len(),
                k + original@.len() == all.len(),
                original@ == all.subrange(k as int, all.len() as int),
                matching@ == sinks_of(all.take(k as int), actor_handle),
                remaining@ == sinks_without(all.take(k as int), actor_handle),
            decreases original@.len(),
        {
            let e = original.remove(0);
            assert(all.take(k + 1).drop_last() =~= all.take(k as int));
            assert(e == all[k as int]);
            if e.0 == actor_handle {
                matching.push(e.1);
            } else {
                remaining.push(e);
            }
            k = k + 1;
            assert(original@ =~= all.subrange(k as int, all.len() as int));
        }
        assert(all.take(k as int) =~= all);
        self.custom_sinks = remaining;
        matching
    }
}

/// What realizing a writer on a stream attaches.
#[derive(Debug, Clone, Copy, PartialEq, Eq, Structural)]
pub enum AttachAction {
    /// Copy the stream to the actor's custom sinks.
    CustomSinks,
    /// Copy the stream to the host's stderr.
    Stderr,
    /// Attach nothing.
    Nothing,
}

/// The attachment for a newly realized writer on `fd`.
pub fn on_writer_realized(fd: isize) -> (r: AttachAction)
    ensures
        fd == 1 ==> r == AttachAction::CustomSinks,
        (fd == 2 || fd == 4 || fd == 5) ==> r == AttachAction::Stderr,
        !(fd == 1 || fd == 2 || fd == 4 || fd == 5) ==> r == AttachAction::Nothing,
{
    match StdHandle::try_from_fd(fd) {
        Ok(h) => match h {
            StdHandle::Stdout => AttachAction::CustomSinks,
            StdHandle::Log | StdHandle::Metrics | StdHandle::Trace => AttachAction::Stderr,
            StdHandle::Stdin | StdHandle::Env | StdHandle::_Count => AttachAction::Nothing,
        },
        Err(()) => AttachAction::Nothing,
    }
}

/// The result of waiting for the attachment tasks, given how many failed.
pub fn shutdown_result(failed_count: u64) -> (r: Result<(), String>)
    ensures
        failed_count == 0 ==> r is Ok,
        failed_count != 0 ==> (r matches Err(m) && m@ == "attachment shutdown failed for "@
            + crate::text::decimal_nat(failed_count as nat) + " tasks"@),
{
    if failed_count == 0 {
        return Ok(());
    }
    let mut m = String::from_str("attachment shutdown failed for ");
    crate::text::push_decimal_u64(&mut m, failed_count);
    m.append(" tasks");
    proof {
        reveal_strlit("attachment shutdown failed for ");
        reveal_strlit(" tasks");
    }
    Err(m)
}

} // verus!
