//! Registry mapping actor names to their implementation functions.

use vstd::prelude::*;

use crate::text::str_eq;

verus! {

/// The value registered under `name`, if any.
pub open spec fn registry_lookup<F>(actors: Seq<(Seq<char>, F)>, name: Seq<char>) -> Option<F> {
    if exists|i: int| 0 <= i < actors.len() && actors[i].0 == name {
        Some(actors[choose|i: int| 0 <= i < actors.len() && actors[i].0 == name].1)
    } else {
        None
    }
}

/// No name is registered twice.
pub open spec fn unique_names<F>(actors: Seq<(Seq<char>, F)>) -> bool {
    forall|i: int, j: int|
        0 <= i < actors.len() && 0 <= j < actors.len() && i != j ==> actors[i].0 != actors[j].0
}

/// Registry mapping actor names to their implementation functions
#[derive(Clone)]
pub struct ActorRegistry<F> {
    actors: Vec<(String, F)>,
}

impl<F: Copy> ActorRegistry<F> {
    /// The registered names with their functions.
    pub closed spec fn actors(self) -> Seq<(Seq<char>, F)> {
        self.actors@.map_values(|e: (String, F)| (e.0@, e.1))
    }

    /// The function registered under `name`, if any.
    pub open spec fn lookup(self, name: Seq<char>) -> Option<F> {
        registry_lookup(self.actors(), name)
    }

    /// Each name is registered once.
    pub open spec fn wf(self) -> bool {
        unique_names(self.actors())
    }

    /// An empty registry.
    pub fn new() -> (r: Self)
        ensures
            r.wf(),
            forall|name: Seq<char>| r.lookup(name) is None,
    {
        let r = Self { actors: Vec::new() };
        assert(r.actors() =~= Seq::<(Seq<char>, F)>::empty());
        r
    }

    fn find(&self, name: &str) -> (r: Option<usize>)
        ensures
            r is None ==> forall|i: int| 0 <= i < self.actors().len() ==> self.actors()[i].0 != name@,
            r matches Some(i) ==> i < self.actors().len() && self.actors()[i as int].0 == name@,
    {
        let mut i: usize = 0;
        while i < self.actors.len()
            invariant
                i <= self.actors@.len(),
                forall|j: int| 0 <= j < i ==> self.actors()[j].0 != name@,
            decreases self.actors@.len() - i,
        {
            if str_eq(self.actors[i].0.as_str(), name) {
                return Some(i);
            }
            i = i + 1;
        }
        None
    }

    /// Register an actor function under `name`, replacing an earlier one.
    pub fn register(&mut self, name: String, actor_fn: F)
        requires
            old(self).wf(),
        ensures
            final(self).wf(),
            final(self).lookup(name@) == Some(actor_fn),
            forall|other: Seq<char>| other != name@ ==> final(self).lookup(other) == old(self).lookup(other),
    {
        match self.find(name.as_str()) {
            Some(i) => {
                let ghost nm = name@;
                self.actors.set(i, (name, actor_fn));
                proof {
                    assert(self.actors() =~= old(self).actors().update(i as int, (nm, actor_fn)));
                    assert(self.actors()[i as int].0 == nm);
                    assert forall|other: Seq<char>| other != nm implies self.lookup(other) == old(self).lookup(other) by {
                        if exists|k: int| 0 <= k < old(self).actors().len() && old(self).actors()[k].0 == other {
                            let k = choose|k: int| 0 <= k < old(self).actors().len() && old(self).actors()[k].0 == other;
                            assert(self.actors()[k].0 == other);
                            let k2 = choose|k2: int| 0 <= k2 < self.actors().len() && self.actors()[k2].0 == other;
                            assert(k2 == k);
                        } else {
                            assert(!exists|k: int| 0 <= k < self.actors().len() && self.actors()[k].0 == other) by {
                                if exists|k: int| 0 <= k < self.actors().len() && self.actors()[k].0 == other {
                                    let k = choose|k: int| 0 <= k < self.actors().len() && self.actors()[k].0 == other;
                                    assert(old(self).actors()[k].0 == other);
                                }
                            }
                        }
                    }
                    let k2 = choose|k2: int| 0 <= k2 < self.actors().len() && self.actors()[k2].0 == nm;
                    assert(k2 == i);
                }
            },
            None => {
                let ghost nm = name@;
                self.actors.push((name, actor_fn));
                proof {
                    let n = old(self).actors().len() as int;
                    assert(self.actors() =~= old(self).actors().push((nm, actor_fn)));
                    assert(self.actors()[n].0 == nm);
                    assert forall|other: Seq<char>| other != nm implies self.lookup(other) == old(self).lookup(other) by {
                        if exists|k: int| 0 <= k < old(self).actors().len() && old(self).actors()[k].0 == other {
                            let k = choose|k: int| 0 <= k < old(self).actors().len() && old(self).actors()[k].0 == other;
                            assert(self.actors()[k].0 == other);
                            let k2 = choose|k2: int| 0 <= k2 < self.actors().len() && self.actors()[k2].0 == other;
                            assert(k2 == k);
                        } else {
                            assert(!exists|k: int| 0 <= k < self.actors().len() && self.actors()[k].0 == other) by {
                                if exists|k: int| 0 <= k < self.actors().len() && self.actors()[k].0 == other {
                                    let k = choose|k: int| 0 <= k < self.actors().len() && self.actors()[k].0 == other;
                                    assert(k != n);
                                    assert(old(self).actors()[k].0 == other);
                                }
                            }
                        }
                    }
                    let k2 = choose|k2: int| 0 <= k2 < self.actors().len() && self.actors()[k2].0 == nm;
                    assert(k2 == n);
                }
            },
        }
    }

    /// Get an actor function by name
    pub fn get(&self, name: &str) -> (r: Option<F>)
        requires
            self.wf(),
        ensures
            r == self.lookup(name@),
    {
        match self.find(name) {
            Some(i) => {
                proof {
                    let k2 = choose|k2: int| 0 <= k2 < self.actors().len() && self.actors()[k2].0 == name@;
                    assert(k2 == i);
                }
                Some(self.actors[i].1)
            },
            None => None,
        }
    }
}

impl<F: Copy> Default for ActorRegistry<F> {
    fn default() -> (r: Self)
        ensures
            r.wf(),
            forall|name: Seq<char>| r.lookup(name) is None,
    {
        Self::new()
    }
}

} // verus!
