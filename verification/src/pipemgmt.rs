//! Management of the pipe (steering-vector slot) pool across workers.
//!
//! Each worker owns `pipe_count` slots; a slot is either free (the
//! beamformer draws random angles for it every buffer) or bound to a
//! transponder address with fixed weights.  The manager owns the
//! address-to-slot map and hands back the typed commands that the
//! orchestrator must deliver to the workers' channels.

use vstd::prelude::*;
use std::collections::HashMap;

verus! {

broadcast use vstd::std_specs::hash::group_hash_axioms;

/// A command understood by a worker thread.
pub enum ThreadTxMessage {
    /// A sample buffer to process, with its interleaved stream count.
    Buffer(Vec<u8>, usize),
    /// Fix a local slot to the given angles (micro-radians) and,
    /// optionally, amplitudes (milli-units).
    SetWeights(usize, Vec<i32>, Option<Vec<u32>>),
    /// Return a local slot to per-buffer random weights.
    UnsetWeights(usize),
}

/// The pool of slots and the address bindings over them.
pub struct PipeManagement {
    /// Maps a transponder address to its `(worker, local slot)` pair.
    addr_to_pipe: HashMap<u32, (usize, usize)>,
    /// Maps each global slot to the address bound to it, if any.
    pipe_to_addr: Vec<Option<u32>>,
    /// The total number of worker threads.
    thread_count: usize,
    /// The number of slots per worker.
    pipe_count: usize,
}

/// The first free slot at or after position `k`, or -1 when all from
/// `k` on are bound.
pub open spec fn first_free_from(s: Seq<Option<u32>>, k: int) -> int
    decreases s.len() - k,
{
    if k < 0 || k >= s.len() {
        -1
    } else if s[k] is None {
        k
    } else {
        first_free_from(s, k + 1)
    }
}

impl PipeManagement {
    /// The address-to-slot map.
    pub closed spec fn addr_map(&self) -> Map<u32, (usize, usize)> {
        self.addr_to_pipe@
    }

    /// The slot-to-address vector, indexed by global slot index.
    pub closed spec fn slots(&self) -> Seq<Option<u32>> {
        self.pipe_to_addr@
    }

    /// The number of worker threads.
    pub closed spec fn spec_thread_count(&self) -> usize {
        self.thread_count
    }

    /// The number of slots per worker.
    pub closed spec fn spec_pipe_count(&self) -> usize {
        self.pipe_count
    }

    /// The global slot index bound to address `a`.
    pub open spec fn global_ndx(&self, a: u32) -> int {
        self.addr_map()[a].0 * self.spec_pipe_count() + self.addr_map()[a].1
    }

    /// Well-formedness: the slot vector covers exactly the pool, and
    /// every address binding points at a slot that names it back.
    pub open spec fn wf(&self) -> bool {
        &&& self.slots().len() == self.spec_thread_count() * self.spec_pipe_count()
        &&& self.slots().len() <= usize::MAX
        &&& forall|a: u32|
            self.addr_map().contains_key(a) ==> {
                &&& (#[trigger] self.addr_map()[a]).0 < self.spec_thread_count()
                &&& self.addr_map()[a].1 < self.spec_pipe_count()
                &&& 0 <= self.global_ndx(a) < self.slots().len()
                &&& self.slots()[self.global_ndx(a)] == Some(a)
            }
    }

    /// A fresh pool of `thread_count * pipe_count` free slots with no
    /// address bound.
    pub fn new(thread_count: usize, pipe_count: usize) -> (pm: PipeManagement)
        requires
            thread_count * pipe_count <= usize::MAX,
        ensures
            pm.wf(),
            pm.addr_map() == Map::<u32, (usize, usize)>::empty(),
            pm.slots().len() == thread_count * pipe_count,
            forall|x: int| 0 <= x < pm.slots().len() ==> pm.slots()[x] is None,
            pm.spec_thread_count() == thread_count,
            pm.spec_pipe_count() == pipe_count,
    {
        let total = thread_count * pipe_count;
        let mut v: Vec<Option<u32>> = Vec::new();
        for x in 0..total
            invariant
                v@.len() == x,
                forall|y: int| 0 <= y < x ==> v@[y] is None,
        {
            v.push(None);
        }
        let pm = PipeManagement {
            addr_to_pipe: HashMap::new(),
            pipe_to_addr: v,
            thread_count: thread_count,
            pipe_count: pipe_count,
        };
        pm
    }

    /// Release the slot bound to `addr`, if any; idempotent.  Returns
    /// the worker index and command to deliver.
    pub fn unset_addr(&mut self, addr: u32) -> (cmd: Option<(usize, ThreadTxMessage)>)
        requires
            old(self).wf(),
        ensures
            final(self).wf(),
            final(self).spec_thread_count() == old(self).spec_thread_count(),
            final(self).spec_pipe_count() == old(self).spec_pipe_count(),
            old(self).addr_map().contains_key(addr) ==> {
                &&& final(self).addr_map() == old(self).addr_map().remove(addr)
                &&& final(self).slots() == old(self).slots().update(
                    old(self).global_ndx(addr),
                    None,
                )
                &&& cmd == Some(
                    (
                        old(self).addr_map()[addr].0,
                        ThreadTxMessage::UnsetWeights(old(self).addr_map()[addr].1),
                    ),
                )
            },
            !old(self).addr_map().contains_key(addr) ==> {
                &&& final(self).addr_map() == old(self).addr_map()
                &&& final(self).slots() == old(self).slots()
                &&& cmd is None
            },
    {
        let looked = match self.addr_to_pipe.get(&addr) {
            None => None,
            Some((thread_ndx, pipe_ndx)) => Some((*thread_ndx, *pipe_ndx)),
        };
        match looked {
            None => None,
            Some((thread_ndx, pipe_ndx)) => {
                proof {
                    assert(old(self).addr_map().contains_key(addr));
                    assert(old(self).addr_map()[addr] == (thread_ndx, pipe_ndx));
                    assert(0 <= old(self).global_ndx(addr) < old(self).slots().len());
                }
                self.addr_to_pipe.remove(&addr);
                let total = self.pipe_to_addr.len();
                assert(thread_ndx * self.pipe_count + pipe_ndx < total);
                self.pipe_to_addr.set(thread_ndx * self.pipe_count + pipe_ndx, None);
                proof {
                    assert forall|a: u32| self.addr_map().contains_key(a) implies {
                        &&& (#[trigger] self.addr_map()[a]).0 < self.spec_thread_count()
                        &&& self.addr_map()[a].1 < self.spec_pipe_count()
                        &&& 0 <= self.global_ndx(a) < self.slots().len()
                        &&& self.slots()[self.global_ndx(a)] == Some(a)
                    } by {
                        assert(old(self).addr_map().contains_key(a) && a != addr);
                        if self.global_ndx(a) == old(self).global_ndx(addr) {
                            assert(old(self).slots()[old(self).global_ndx(a)] == Some(a));
                            assert(old(self).slots()[old(self).global_ndx(addr)] == Some(addr));
                        }
                    }
                }
                Some((thread_ndx, ThreadTxMessage::UnsetWeights(pipe_ndx)))
            },
        }
    }

    /// Force a global slot to fixed weights (or back to random), bound
    /// to `addr` in the slot map only.  Used by uniform-linear-array
    /// initialization before any address is bound; the caller must not
    /// aim it at a slot an address binding points to.
    pub fn set_pipe_to_theta(
        &mut self,
        pipe_ndx: usize,
        addr: u32,
        thetas: Option<Vec<i32>>,
        amps: Option<Vec<u32>>,
    ) -> (cmd: (usize, ThreadTxMessage))
        requires
            old(self).wf(),
            pipe_ndx < old(self).slots().len(),
            forall|a: u32|
                old(self).addr_map().contains_key(a) ==> #[trigger] old(self).global_ndx(a)
                    != pipe_ndx,
        ensures
            final(self).wf(),
            final(self).addr_map() == old(self).addr_map(),
            final(self).spec_thread_count() == old(self).spec_thread_count(),
            final(self).spec_pipe_count() == old(self).spec_pipe_count(),
            thetas matches Some(v) ==> {
                &&& final(self).slots() == old(self).slots().update(pipe_ndx as int, Some(addr))
                &&& cmd == (
                    pipe_ndx / old(self).spec_pipe_count(),
                    ThreadTxMessage::SetWeights(pipe_ndx % old(self).spec_pipe_count(), v, amps),
                )
            },
            thetas is None ==> {
                &&& final(self).slots() == old(self).slots().update(pipe_ndx as int, None)
                &&& cmd == (
                    pipe_ndx / old(self).spec_pipe_count(),
                    ThreadTxMessage::UnsetWeights(pipe_ndx % old(self).spec_pipe_count()),
                )
            },
    {
        proof {
            assert(self.pipe_count > 0) by (nonlinear_arith)
                requires
                    self.pipe_to_addr@.len() == self.thread_count * self.pipe_count && (pipe_ndx
                        as int) < self.pipe_to_addr@.len(),
            ;
        }
        let thread_ndx = pipe_ndx / self.pipe_count;
        let local_pipe_ndx = pipe_ndx % self.pipe_count;
        match thetas {
            Some(v) => {
                self.pipe_to_addr.set(pipe_ndx, Some(addr));
                (thread_ndx, ThreadTxMessage::SetWeights(local_pipe_ndx, v, amps))
            },
            None => {
                self.pipe_to_addr.set(pipe_ndx, None);
                (thread_ndx, ThreadTxMessage::UnsetWeights(local_pipe_ndx))
            },
        }
    }

    /// The global slot index currently bound to `addr`, if any.
    pub fn get_addr_pipe_ndx(&self, addr: u32) -> (r: Option<usize>)
        requires
            self.wf(),
        ensures
            self.addr_map().contains_key(addr) ==> r == Some(self.global_ndx(addr) as usize),
            !self.addr_map().contains_key(addr) ==> r is None,
    {
        match self.addr_to_pipe.get(&addr) {
            None => None,
            Some((thread_ndx, pipe_ndx)) => {
                proof {
                    assert(self.addr_map().contains_key(addr));
                    assert(self.addr_map()[addr] == (*thread_ndx, *pipe_ndx));
                    assert(0 <= self.global_ndx(addr) < self.slots().len());
                }
                let total = self.pipe_to_addr.len();
                assert(*thread_ndx * self.pipe_count + *pipe_ndx < total);
                Some(*thread_ndx * self.pipe_count + *pipe_ndx)
            },
        }
    }

    /// Bind `addr` to fixed weights: refresh its existing slot, or take
    /// the lowest free slot; fails only when every slot is taken.
    /// Returns whether a slot carries the weights and the command to
    /// deliver.
    pub fn set_addr_to_theta(&mut self, addr: u32, thetas: Vec<i32>, amps: Option<Vec<u32>>) -> (r:
        (bool, Option<(usize, ThreadTxMessage)>))
        requires
            old(self).wf(),
        ensures
            final(self).wf(),
            final(self).spec_thread_count() == old(self).spec_thread_count(),
            final(self).spec_pipe_count() == old(self).spec_pipe_count(),
            old(self).addr_map().contains_key(addr) ==> {
                &&& final(self).addr_map() == old(self).addr_map()
                &&& final(self).slots() == old(self).slots()
                &&& r.0 == true
                &&& r.1 == Some(
                    (
                        old(self).addr_map()[addr].0,
                        ThreadTxMessage::SetWeights(old(self).addr_map()[addr].1, thetas, amps),
                    ),
                )
            },
            !old(self).addr_map().contains_key(addr) ==> {
                let x = first_free_from(old(self).slots(), 0);
                if x >= 0 {
                    &&& final(self).addr_map() == old(self).addr_map().insert(
                        addr,
                        (
                            (x / old(self).spec_pipe_count() as int) as usize,
                            (x % old(self).spec_pipe_count() as int) as usize,
                        ),
                    )
                    &&& final(self).slots() == old(self).slots().update(x, Some(addr))
                    &&& r.0 == true
                    &&& r.1 == Some(
                        (
                            (x / old(self).spec_pipe_count() as int) as usize,
                            ThreadTxMessage::SetWeights(
                                (x % old(self).spec_pipe_count() as int) as usize,
                                thetas,
                                amps,
                            ),
                        ),
                    )
                } else {
                    &&& final(self).addr_map() == old(self).addr_map()
                    &&& final(self).slots() == old(self).slots()
                    &&& r == (false, None::<(usize, ThreadTxMessage)>)
                }
            },
    {
        let looked = match self.addr_to_pipe.get(&addr) {
            None => None,
            Some((thread_ndx, pipe_ndx)) => Some((*thread_ndx, *pipe_ndx)),
        };
        match looked {
            Some((thread_ndx, pipe_ndx)) => {
                (true, Some((thread_ndx, ThreadTxMessage::SetWeights(pipe_ndx, thetas, amps))))
            },
            None => {
                let total = self.pipe_to_addr.len();
                for x in 0..total
                    invariant
                        self == old(self),
                        self.wf(),
                        !self.addr_map().contains_key(addr),
                        total == self.pipe_to_addr@.len(),
                        first_free_from(self.pipe_to_addr@, 0) == first_free_from(
                            self.pipe_to_addr@,
                            x as int,
                        ),
                        forall|y: int| 0 <= y < x ==> !(self.pipe_to_addr@[y] is None),
                {
                    if self.pipe_to_addr[x].is_none() {
                        proof {
                            assert(self.pipe_count > 0) by (nonlinear_arith)
                                requires
                                    self.pipe_to_addr@.len() == self.thread_count
                                        * self.pipe_count && (x as int) < self.pipe_to_addr@.len(),
                            ;
                            assert(first_free_from(self.pipe_to_addr@, x as int) == x);
                        }
                        self.pipe_to_addr.set(x, Some(addr));
                        let thread_ndx = x / self.pipe_count;
                        let pipe_ndx = x % self.pipe_count;
                        proof {
                            vstd::arithmetic::div_mod::lemma_fundamental_div_mod(
                                x as int,
                                self.pipe_count as int,
                            );
                            assert(thread_ndx < self.thread_count && thread_ndx * self.pipe_count
                                + pipe_ndx == x) by (nonlinear_arith)
                                requires
                                    self.pipe_count > 0 && (x as int) < self.thread_count
                                        * self.pipe_count && thread_ndx == (x as int) / (
                                    self.pipe_count as int) && pipe_ndx == (x as int) % (
                                    self.pipe_count as int) && (x as int) == (self.pipe_count as int)
                                        * ((x as int) / (self.pipe_count as int)) + (x as int) % (
                                    self.pipe_count as int),
                            ;
                        }
                        self.addr_to_pipe.insert(addr, (thread_ndx, pipe_ndx));
                        proof {
                            assert forall|a: u32| self.addr_map().contains_key(a) implies {
                                &&& (#[trigger] self.addr_map()[a]).0 < self.spec_thread_count()
                                &&& self.addr_map()[a].1 < self.spec_pipe_count()
                                &&& 0 <= self.global_ndx(a) < self.slots().len()
                                &&& self.slots()[self.global_ndx(a)] == Some(a)
                            } by {
                                if a != addr {
                                    assert(old(self).addr_map().contains_key(a));
                                    if old(self).global_ndx(a) == x as int {
                                        assert(old(self).slots()[x as int] == Some(a));
                                    }
                                }
                            }
                        }
                        return (
                            true,
                            Some((thread_ndx, ThreadTxMessage::SetWeights(pipe_ndx, thetas, amps))),
                        );
                    }
                }
                (false, None)
            },
        }
    }
}

/// The two halves of the binding state agree wherever both speak: a
/// bound address's slot names that address back, and no two addresses
/// share a slot.
pub proof fn lemma_pipe_bijection(pm: PipeManagement)
    requires
        pm.wf(),
    ensures
        forall|a: u32|
            pm.addr_map().contains_key(a) ==> pm.slots()[#[trigger] pm.global_ndx(a)] == Some(a),
        forall|a1: u32, a2: u32|
            pm.addr_map().contains_key(a1) && pm.addr_map().contains_key(a2) && #[trigger] pm.global_ndx(
                a1,
            ) == #[trigger] pm.global_ndx(a2) ==> a1 == a2,
{
    assert forall|a1: u32, a2: u32|
        pm.addr_map().contains_key(a1) && pm.addr_map().contains_key(a2) && #[trigger] pm.global_ndx(
            a1,
        ) == #[trigger] pm.global_ndx(a2) implies a1 == a2 by {
        assert(pm.slots()[pm.global_ndx(a1)] == Some(a1));
        assert(pm.slots()[pm.global_ndx(a2)] == Some(a2));
    }
}

} // verus!
