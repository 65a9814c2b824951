//! Control registry for debug actors (deb): actors that start paused and run
//! once resumed. Used for testing on-demand actor spawning.
//!
//! The registry maps actor handles to their controls; a `DebContext` holds what
//! the current actor thread knows: its own control and its byte limit.

use vstd::prelude::*;
use vstd::string::StringExecFns;

use crate::idgen::Handle;

verus! {

broadcast use Handle::lemma_handle_ext;

/// State of a debug actor
#[derive(Debug, Clone, Copy, PartialEq, Eq, Structural)]
pub enum DebControlState {
    /// Actor is running normally
    Running,
    /// Actor is paused and waiting to be resumed
    Paused,
}

/// Control of a debug actor: it names the control's state in the registry that made it,
/// so that the registry, the actor and whoever resumes it share one state.
#[derive(Debug, Clone, Copy, PartialEq, Eq, Structural)]
pub struct DebControl {
    slot: usize,
}

impl DebControl {
    /// Where the control's state is kept in its registry.
    pub closed spec fn spec_slot(self) -> nat {
        self.slot as nat
    }

    /// The state of the controlled actor, as `registry` keeps it (paused for a control
    /// that the registry did not make).
    pub fn state(&self, registry: &DebRegistry) -> (r: DebControlState)
        ensures
            r == registry.state_of(*self),
    {
        if self.slot < registry.states.len() {
            registry.states[self.slot]
        } else {
            DebControlState::Paused
        }
    }

    /// Whether the actor may go on: true once it is resumed. While it is paused
    /// the caller waits for the resume notification and asks again.
    pub fn wait_for_resume(&self, registry: &DebRegistry) -> (r: bool)
        ensures
            r == registry.resumed(*self),
    {
        match self.state(registry) {
            DebControlState::Paused => false,
            DebControlState::Running => true,
        }
    }

    /// Resume the actor: its state in `registry` becomes running (a control that the
    /// registry did not make changes nothing).
    pub fn resume(&self, registry: &mut DebRegistry)
        requires
            old(registry).wf(),
        ensures
            final(registry).wf(),
            forall|c: DebControl| #[trigger] old(registry).resumed(c) ==> final(registry).resumed(c),
            final(registry).controls() == old(registry).controls(),
            self.spec_slot() < old(registry).states().len() ==> final(registry).states()
                == old(registry).states().update(self.spec_slot() as int, DebControlState::Running),
            self.spec_slot() >= old(registry).states().len() ==> final(registry).states() == old(registry).states(),
    {
        if self.slot < registry.states.len() {
            registry.states.set(self.slot, DebControlState::Running);
        }
    }
}

/// The controls registered by handle, the last registration of a handle winning, and
/// the state of every control the registry has made.
pub struct DebRegistry {
    controls: Vec<(Handle, DebControl)>,
    states: Vec<DebControlState>,
}

/// What the current debug actor knows: its control's handle and its byte limit.
#[derive(Debug, Clone, Copy)]
pub struct DebContext {
    pub control: Option<Handle>,
    pub byte_limit: Option<usize>,
}

impl DebContext {
    /// A context outside any debug actor.
    pub fn new() -> (c: Self)
        ensures
            c.control is None,
            c.byte_limit is None,
    {
        Self { control: None, byte_limit: None }
    }
}

/// The control registered for `h`, if any.
pub open spec fn control_of(controls: Seq<(Handle, DebControl)>, h: Handle) -> Option<DebControl> {
    if exists|i: int| 0 <= i < controls.len() && controls[i].0 == h {
        Some(controls[choose|i: int| 0 <= i < controls.len() && controls[i].0 == h].1)
    } else {
        None
    }
}

/// No handle is registered twice.
pub open spec fn unique_handles(controls: Seq<(Handle, DebControl)>) -> bool {
    forall|i: int, j: int| 0 <= i < controls.len() && 0 <= j < controls.len() && i != j ==> controls[i].0 != controls[j].0
}

impl DebRegistry {
    /// The registered controls in registration order.
    pub closed spec fn controls(self) -> Seq<(Handle, DebControl)> {
        self.controls@
    }

    /// The state of every control made, by slot.
    pub closed spec fn states(self) -> Seq<DebControlState> {
        self.states@
    }

    /// The control of `h`, if any.
    pub open spec fn control(self, h: Handle) -> Option<DebControl> {
        control_of(self.controls(), h)
    }

    /// The state of `c` (paused for a control that the registry did not make).
    pub open spec fn state_of(self, c: DebControl) -> DebControlState {
        if c.spec_slot() < self.states().len() {
            self.states()[c.spec_slot() as int]
        } else {
            DebControlState::Paused
        }
    }

    /// Whether the actor of `c` has been resumed.
    pub open spec fn resumed(self, c: DebControl) -> bool {
        self.state_of(c) == DebControlState::Running
    }

    /// Each handle is registered once, with a control the registry made.
    pub open spec fn wf(self) -> bool {
        &&& unique_handles(self.controls())
        &&& forall|i: int| 0 <= i < self.controls().len() ==> (#[trigger] self.controls()[i]).1.spec_slot()
            < self.states().len()
    }

    /// An empty registry.
    pub fn new() -> (r: Self)
        ensures
            r.wf(),
            r.controls() == Seq::<(Handle, DebControl)>::empty(),
            r.states() == Seq::<DebControlState>::empty(),
    {
        Self { controls: Vec::new(), states: Vec::new() }
    }

    fn find(&self, h: Handle) -> (r: Option<usize>)
        requires
            self.wf(),
        ensures
            r is None ==> self.control(h) is None,
            r matches Some(i) ==> i < self.controls().len() && self.controls()[i as int].0 == h && self.control(h)
                == Some(self.controls()[i as int].1),
    {
        let mut i: usize = 0;
        while i < self.controls.len()
            invariant
                self.wf(),
                i <= self.controls@.len(),
                forall|j: int| 0 <= j < i ==> self.controls()[j].0 != h,
            decreases self.controls@.len() - i,
        {
            if self.controls[i].0 == h {
                proof {
                    let k = choose|k: int| 0 <= k < self.controls().len() && self.controls()[k].0 == h;
                    assert(k == i);
                }
                return Some(i);
            }
            i = i + 1;
        }
        None
    }

    /// The control of `h`, if any.
    pub fn get(&self, h: Handle) -> (r: Option<DebControl>)
        requires
            self.wf(),
        ensures
            r == self.control(h),
    {
        match self.find(h) {
            Some(i) => Some(self.controls[i].1),
            None => None,
        }
    }

    fn put(&mut self, h: Handle, c: DebControl)
        requires
            old(self).wf(),
            c.spec_slot() < old(self).states().len(),
        ensures
            final(self).wf(),
            final(self).states() == old(self).states(),
            final(self).control(h) == Some(c),
            forall|g: Handle| g != h ==> final(self).control(g) == old(self).control(g),
            forall|g: Handle| final(self).control(g) is Some <==> (old(self).control(g) is Some || g == h),
    {
        match self.find(h) {
            Some(i) => {
                self.controls.set(i, (h, c));
                proof {
                    assert(self.controls() == old(self).controls().update(i as int, (h, c)));
                    assert forall|g: Handle| g != h implies #[trigger] self.control(g) == old(self).control(g) by {
                        if exists|k: int| 0 <= k < old(self).controls().len() && old(self).controls()[k].0 == g {
                            let k = choose|k: int| 0 <= k < old(self).controls().len() && old(self).controls()[k].0 == g;
                            assert(self.controls()[k].0 == g);
                            let k2 = choose|k2: int| 0 <= k2 < self.controls().len() && self.controls()[k2].0 == g;
                            assert(k2 == k);
                        } else {
                            assert(!exists|k: int| 0 <= k < self.controls().len() && self.controls()[k].0 == g) by {
                                if exists|k: int| 0 <= k < self.controls().len() && self.controls()[k].0 == g {
                                    let k = choose|k: int| 0 <= k < self.controls().len() && self.controls()[k].0 == g;
                                    assert(old(self).controls()[k].0 == g);
                                }
                            }
                        }
                    }
                    assert(self.controls()[i as int].0 == h);
                    let k2 = choose|k2: int| 0 <= k2 < self.controls().len() && self.controls()[k2].0 == h;
                    assert(k2 == i);
                }
            },
            None => {
                self.controls.push((h, c));
                proof {
                    let n = old(self).controls().len() as int;
                    assert(self.controls() == old(self).controls().push((h, c)));
                    assert forall|g: Handle| g != h implies #[trigger] self.control(g) == old(self).control(g) by {
                        if exists|k: int| 0 <= k < old(self).controls().len() && old(self).controls()[k].0 == g {
                            let k = choose|k: int| 0 <= k < old(self).controls().len() && old(self).controls()[k].0 == g;
                            assert(self.controls()[k].0 == g);
                            let k2 = choose|k2: int| 0 <= k2 < self.controls().len() && self.controls()[k2].0 == g;
                            assert(k2 == k);
                        } else {
                            assert(!exists|k: int| 0 <= k < self.controls().len() && self.controls()[k].0 == g) by {
                                if exists|k: int| 0 <= k < self.controls().len() && self.controls()[k].0 == g {
                                    let k = choose|k: int| 0 <= k < self.controls().len() && self.controls()[k].0 == g;
                                    assert(k != n);
                                    assert(old(self).controls()[k].0 == g);
                                }
                            }
                        }
                    }
                    assert(self.controls()[n].0 == h);
                    let k2 = choose|k2: int| 0 <= k2 < self.controls().len() && self.controls()[k2].0 == h;
                    assert(k2 == n);
                }
            },
        }
    }
}

/// Register a new debug actor (paused) and make it the current actor's control.
pub fn register_deb_actor(registry: &mut DebRegistry, context: &mut DebContext, handle: Handle) -> (r: DebControl)
    requires
        old(registry).wf(),
    ensures
        final(registry).wf(),
        r.spec_slot() == old(registry).states().len(),
        final(registry).states() == old(registry).states().push(DebControlState::Paused),
        forall|c: DebControl| #[trigger] old(registry).resumed(c) ==> final(registry).resumed(c),
        final(registry).control(handle) == Some(r),
        forall|g: Handle| g != handle ==> final(registry).control(g) == old(registry).control(g),
        forall|g: Handle| final(registry).control(g) is Some <==> (old(registry).control(g) is Some || g == handle),
        final(context).control == Some(handle),
        final(context).byte_limit is None,
{
    register_deb_actor_with_config(registry, context, handle, None)
}

/// Register a new debug actor (paused) with an optional byte limit, and make it
/// the current actor's control, with that byte limit. The control returned is the
/// one the registry keeps for `handle`, replacing any earlier one: resuming `handle`
/// resumes it.
pub fn register_deb_actor_with_config(
    registry: &mut DebRegistry,
    context: &mut DebContext,
    handle: Handle,
    byte_limit: Option<usize>,
) -> (r: DebControl)
    requires
        old(registry).wf(),
    ensures
        final(registry).wf(),
        r.spec_slot() == old(registry).states().len(),
        final(registry).states() == old(registry).states().push(DebControlState::Paused),
        forall|c: DebControl| #[trigger] old(registry).resumed(c) ==> final(registry).resumed(c),
        final(registry).control(handle) == Some(r),
        forall|g: Handle| g != handle ==> final(registry).control(g) == old(registry).control(g),
        forall|g: Handle| final(registry).control(g) is Some <==> (old(registry).control(g) is Some || g == handle),
        final(context).control == Some(handle),
        final(context).byte_limit == byte_limit,
{
    let control = DebControl { slot: registry.states.len() };
    registry.states.push(DebControlState::Paused);
    proof {
        assert forall|i: int| 0 <= i < registry.controls().len() implies (#[trigger] registry.controls()[i]).1.spec_slot()
            < registry.states().len() by {
            assert(old(registry).controls()[i] == registry.controls()[i]);
        }
    }
    registry.put(handle, control);
    context.control = Some(handle);
    context.byte_limit = byte_limit;
    control
}

/// The current debug actor's control, if the context is a debug actor's.
pub fn get_current_deb_control(registry: &DebRegistry, context: &DebContext) -> (r: Option<DebControl>)
    requires
        registry.wf(),
    ensures
        r == (match context.control {
            Some(h) => registry.control(h),
            None => None,
        }),
{
    match context.control {
        Some(h) => registry.get(h),
        None => None,
    }
}

/// The current debug actor's byte limit, if set.
pub fn get_current_deb_byte_limit(context: &DebContext) -> (r: Option<usize>)
    ensures
        r == context.byte_limit,
{
    context.byte_limit
}

/// The message when no debug actor has the handle.
pub open spec fn not_found_message(h: Handle) -> Seq<char> {
    "Debug actor with handle "@ + h.debug_text() + " not found"@
}

/// Resume a debug actor by its handle: the state of its control in the registry, which
/// every copy of that control names, becomes running.
///
/// Returns `Ok(())` if the actor was found and resumed, or an error message otherwise.
pub fn resume_deb_actor(registry: &mut DebRegistry, handle: Handle) -> (r: Result<(), String>)
    requires
        old(registry).wf(),
    ensures
        final(registry).wf(),
        forall|c: DebControl| #[trigger] old(registry).resumed(c) ==> final(registry).resumed(c),
        final(registry).controls() == old(registry).controls(),
        match old(registry).control(handle) {
            Some(c) => r is Ok && final(registry).states() == old(registry).states().update(
                c.spec_slot() as int,
                DebControlState::Running,
            ) && final(registry).resumed(c),
            None => r matches Err(m) && m@ == not_found_message(handle) && final(registry).states() == old(
                registry,
            ).states(),
        },
{
    match registry.get(handle) {
        Some(c) => {
            proof {
                let k = choose|k: int| 0 <= k < registry.controls().len() && registry.controls()[k].0 == handle;
                assert(registry.controls()[k].1.spec_slot() < registry.states().len());
            }
            c.resume(registry);
            Ok(())
        },
        None => {
            let mut m = String::from_str("Debug actor with handle ");
            let t = handle.to_debug_string();
            m.append(t.as_str());
            m.append(" not found");
            proof {
                reveal_strlit("Debug actor with handle ");
                reveal_strlit(" not found");
            }
            assert(m@ =~= not_found_message(handle));
            Err(m)
        },
    }
}

/// Get a list of all registered debug actors, in registration order.
pub fn list_deb_actors(registry: &DebRegistry) -> (r: Vec<Handle>)
    requires
        registry.wf(),
    ensures
        r@.len() == registry.controls().len(),
        forall|i: int| 0 <= i < r@.len() ==> #[trigger] r@[i] == registry.controls()[i].0,
        forall|h: Handle| r@.contains(h) <==> registry.control(h) is Some,
{
    let mut out: Vec<Handle> = Vec::new();
    let mut i: usize = 0;
    while i < registry.controls.len()
        invariant
            i <= registry.controls@.len(),
            out@.len() == i,
            forall|j: int| 0 <= j < i ==> #[trigger] out@[j] == registry.controls()[j].0,
        decreases registry.controls@.len() - i,
    {
        out.push(registry.controls[i].0);
        i = i + 1;
    }
    proof {
        assert forall|h: Handle| out@.contains(h) <==> registry.control(h) is Some by {
            if out@.contains(h) {
                let j = choose|j: int| 0 <= j < out@.len() && out@[j] == h;
                assert(registry.controls()[j].0 == h);
            }
            if registry.control(h) is Some {
                let j = choose|j: int| 0 <= j < registry.controls().len() && registry.controls()[j].0 == h;
                assert(out@[j] == h);
            }
        }
    }
    out
}

/// Law: a resumed control stays resumed. Along any run of registry states in which each
/// step is one of the registry's operations (`register_deb_actor`,
/// `register_deb_actor_with_config`, `resume_deb_actor`, `DebControl::resume`; each
/// ensures that a resumed control stays resumed), a control resumed at some state is
/// resumed at every later one: once `wait_for_resume` answers true, it always does.
pub proof fn lemma_resumed_stays_resumed(states: Seq<DebRegistry>, c: DebControl, k: int)
    requires
        0 <= k < states.len(),
        states[k].resumed(c),
        forall|i: int| 0 <= i < states.len() - 1 ==> (#[trigger] states[i].resumed(c) ==> states[i + 1].resumed(c)),
    ensures
        forall|i: int| k <= i < states.len() ==> #[trigger] states[i].resumed(c),
{
    assert forall|i: int| k <= i < states.len() implies #[trigger] states[i].resumed(c) by {
        lemma_resumed_from(states, c, k, i);
    }
}

proof fn lemma_resumed_from(states: Seq<DebRegistry>, c: DebControl, k: int, i: int)
    requires
        0 <= k <= i < states.len(),
        states[k].resumed(c),
        forall|j: int| 0 <= j < states.len() - 1 ==> (#[trigger] states[j].resumed(c) ==> states[j + 1].resumed(c)),
    ensures
        states[i].resumed(c),
    decreases i - k,
{
    if i > k {
        lemma_resumed_from(states, c, k, i - 1);
        assert(states[i - 1].resumed(c));
    }
}

} // verus!
