//! Adding several components at once, and joining them into a chain or into
//! a ring.

use crate::circuit::{Circuit, WireError};
use crate::component::{ComponentId, ComponentKind};
use crate::engine::SimulationEngine;
use crate::paths::lemma_sink_reaches_itself_only;
use crate::wiring::Edge;
use vstd::prelude::*;

verus! {

/// Whether the identifiers are those of `count` components in a row, from
/// number `first` on.
pub open spec fn in_a_row(ids: Seq<ComponentId>, first: nat, count: nat) -> bool {
    &&& ids.len() == count
    &&& forall|i: int| 0 <= i < count ==> (#[trigger] ids[i])@ == first + i
}

/// The number of wires in a chain of `count` components.
pub open spec fn links(count: nat) -> nat {
    if count == 0 {
        0
    } else {
        (count - 1) as nat
    }
}

/// Whether each kind but the first of the list has an input pin.
pub open spec fn can_be_chained(kinds: Seq<ComponentKind>) -> bool {
    forall|i: int| 1 <= i < kinds.len() ==> (#[trigger] kinds[i]).inputs() >= 1
}

impl SimulationEngine {
    /// Adds a component of each kind of the array, in its order, and returns
    /// their identifiers.
    pub fn add_array<const N: usize>(&mut self, array: [ComponentKind; N]) -> (ids: [ComponentId;
        N])
        requires
            old(self).wf(),
            old(self)@.kinds.len() + N <= usize::MAX,
        ensures
            final(self).wf(),
            final(self)@ == old(self)@.with_components(array@),
            in_a_row(ids@, old(self)@.kinds.len(), N as nat),
    {
        let ghost start = self@;
        let mut ids: [ComponentId; N] = [ComponentId::new(0);N];
        let mut i: usize = 0;
        proof {
            start.lemma_with_components_push(Seq::empty(), array@[0]);
            assert(array@.subrange(0, 0) =~= Seq::empty());
        }
        while i < N
            invariant
                i <= N,
                self.wf(),
                start.kinds.len() + N <= usize::MAX,
                self@ == start.with_components(array@.subrange(0, i as int)),
                forall|j: int| 0 <= j < i ==> (#[trigger] ids@[j])@ == start.kinds.len() + j,
            decreases N - i,
        {
            let id = self.add(array[i]);
            ids[i] = id;
            proof {
                start.lemma_with_components_push(array@.subrange(0, i as int), array@[i as int]);
                assert(array@.subrange(0, i + 1) =~= array@.subrange(0, i as int).push(
                    array@[i as int],
                ));
            }
            i += 1;
        }
        assert(array@.subrange(0, N as int) =~= array@);
        ids
    }

    /// Adds as many components of one kind as the result has places.
    pub fn add_array_of<const N: usize>(&mut self, component: ComponentKind) -> (ids: [ComponentId;
        N])
        requires
            old(self).wf(),
            old(self)@.kinds.len() + N <= usize::MAX,
        ensures
            final(self).wf(),
            final(self)@ == old(self)@.with_components(Seq::new(N as nat, |i: int| component)),
            in_a_row(ids@, old(self)@.kinds.len(), N as nat),
    {
        let array: [ComponentKind; N] = [component;N];
        assert(array@ =~= Seq::new(N as nat, |i: int| component));
        self.add_array(array)
    }

    /// Joins each of `count` components in a row to the next one.
    fn chain(&mut self, first: usize, count: usize)
        requires
            old(self).wf(),
            first + count == old(self)@.kinds.len(),
            first + count <= usize::MAX,
            forall|e: Edge| #[trigger] old(self)@.edges.contains(e) ==> e.parent < first,
            forall|i: int|
                first + 1 <= i < first + count ==> (#[trigger] old(self)@.kinds[i]).inputs() >= 1,
        ensures
            final(self).wf(),
            final(self)@ == old(self)@.with_chain(first, links(count as nat)),
            forall|e: Edge| #[trigger] final(self)@.edges.contains(e) ==> e.parent + 1 < first + count
                || e.parent < first,
    {
        let ghost start = self@;
        let mut i: usize = 0;
        while i + 1 < count
            invariant
                i < count || (count == 0 && i == 0),
                first + count <= usize::MAX,
                start.well_formed(),
                first + count == start.kinds.len(),
                self.wf(),
                self@ == start.with_chain(first, i as nat),
                forall|e: Edge| #[trigger] self@.edges.contains(e) ==> e.parent < first + i,
                forall|j: int|
                    first + 1 <= j < first + count ==> (#[trigger] start.kinds[j]).inputs() >= 1,
            decreases count - i,
        {
            let parent = first + i;
            let child = first + i + 1;
            let ghost before = self@;
            proof {
                start.lemma_with_chain_keeps(first, i as nat);
                assert(before.kinds[child as int].inputs() >= 1);
                assert(before.states[parent as int].values.len()
                    == before.kinds[parent as int].outputs());
                if before.closes_cycle(parent, child) {
                    assert forall|z: usize| !before.dag_edges().contains((child, z)) by {
                        if before.dag_edges().contains((child, z)) {
                            let e = choose|e: Edge|
                                #![trigger before.edges.contains(e)]
                                before.edges.contains(e) && Circuit::tickless(e) && e.parent
                                    == child && e.child == z;
                            assert(e.parent < first + i);
                        }
                    }
                    lemma_sink_reaches_itself_only(before.dag_edges(), child, parent);
                }
                assert(before.wire_outcome(parent, child, 0, 0) is Ok);
            }
            let _outcome = self.wire0(ComponentId::new(parent), ComponentId::new(child));
            proof {
                assert(self@ == start.with_chain(first, (i + 1) as nat));
                assert forall|e: Edge| #[trigger] self@.edges.contains(e) implies e.parent < first
                    + i + 1 by {
                    if before.edges.contains(e) {
                    }
                }
            }
            i += 1;
        }
    }

    /// Adds a component of each kind of the array and joins each to the
    /// next one, first output pin to first input pin.
    pub fn add_array_wired<const N: usize>(&mut self, array: [ComponentKind; N]) -> (ids: [ComponentId;
        N])
        requires
            old(self).wf(),
            old(self)@.kinds.len() + N <= usize::MAX,
            can_be_chained(array@),
        ensures
            final(self).wf(),
            final(self)@ == old(self)@.with_components(array@).with_chain(
                old(self)@.kinds.len() as usize,
                links(N as nat),
            ),
            in_a_row(ids@, old(self)@.kinds.len(), N as nat),
    {
        let ghost start = self@;
        let first = self.len();
        let components = self.add_array(array);
        proof {
            assert forall|e: Edge| #[trigger] self@.edges.contains(e) implies e.parent < first by {
                assert(start.fits(e));
            }
            assert forall|i: int| first + 1 <= i < first + N implies (#[trigger] self@.kinds[i]).inputs()
                >= 1 by {
                assert(self@.kinds[i] == array@[i - first]);
            }
        }
        self.chain(first, N);
        components
    }

    /// Adds as many components of one kind as the result has places and
    /// joins each to the next one.
    pub fn add_array_wired_of<const N: usize>(&mut self, component: ComponentKind) -> (ids: [ComponentId;
        N])
        requires
            old(self).wf(),
            old(self)@.kinds.len() + N <= usize::MAX,
            N >= 2 ==> component.inputs() >= 1,
        ensures
            final(self).wf(),
            final(self)@ == old(self)@.with_components(
                Seq::new(N as nat, |i: int| component),
            ).with_chain(old(self)@.kinds.len() as usize, links(N as nat)),
            in_a_row(ids@, old(self)@.kinds.len(), N as nat),
    {
        let array: [ComponentKind; N] = [component;N];
        assert(array@ =~= Seq::new(N as nat, |i: int| component));
        self.add_array_wired(array)
    }

    /// Adds a component of each kind of the array, joins each to the next
    /// one, and then the last to the first. Where that last wire would close
    /// a cycle of combinational components it is refused: the components and
    /// the chain are then there, the ring is not closed.
    pub fn add_array_wired_loop<const N: usize>(&mut self, array: [ComponentKind; N]) -> (ring: Result<
        [ComponentId; N],
        WireError,
    >)
        requires
            old(self).wf(),
            old(self)@.kinds.len() + N <= usize::MAX,
            can_be_chained(array@),
            N >= 1 ==> array@[0].inputs() >= 1,
        ensures
            final(self).wf(),
            ({
                let first = old(self)@.kinds.len() as usize;
                let last = (first + N - 1) as usize;
                let chained = old(self)@.with_components(array@).with_chain(first, links(N as nat));
                if N == 0 {
                    ring is Ok && final(self)@ == chained
                } else {
                    &&& final(self)@ == chained.wired(last, first, 0, 0)
                    &&& ring is Err <==> chained.closes_cycle(last, first)
                    &&& ring is Err ==> ring == Err::<[ComponentId; N], WireError>(
                        WireError::CycleDetected,
                    )
                }
            }),
            ring is Ok ==> in_a_row(ring->Ok_0@, old(self)@.kinds.len(), N as nat),
    {
        let ghost start = self@;
        let components = self.add_array_wired(array);
        if N == 0 {
            return Ok(components);
        }
        let ghost chained = self@;
        proof {
            let first = start.kinds.len() as usize;
            start.with_components(array@).lemma_with_chain_keeps(first, links(N as nat));
            assert(chained.kinds[first as int] == array@[0]);
            assert(chained.states[first + N - 1].values.len() == chained.kinds[first + N
                - 1].outputs());
        }
        match self.wire0(components[N - 1], components[0]) {
            Ok(_) => Ok(components),
            Err(e) => Err(e),
        }
    }

    /// Adds as many components of one kind as the result has places and
    /// joins them into a ring.
    pub fn add_array_wired_loop_of<const N: usize>(&mut self, component: ComponentKind) -> (ring: Result<
        [ComponentId; N],
        WireError,
    >)
        requires
            old(self).wf(),
            old(self)@.kinds.len() + N <= usize::MAX,
            N >= 1 ==> component.inputs() >= 1,
        ensures
            final(self).wf(),
            ({
                let first = old(self)@.kinds.len() as usize;
                let last = (first + N - 1) as usize;
                let chained = old(self)@.with_components(
                    Seq::new(N as nat, |i: int| component),
                ).with_chain(first, links(N as nat));
                if N == 0 {
                    ring is Ok && final(self)@ == chained
                } else {
                    &&& final(self)@ == chained.wired(last, first, 0, 0)
                    &&& ring is Err <==> chained.closes_cycle(last, first)
                    &&& ring is Err ==> ring == Err::<[ComponentId; N], WireError>(
                        WireError::CycleDetected,
                    )
                }
            }),
            ring is Ok ==> in_a_row(ring->Ok_0@, old(self)@.kinds.len(), N as nat),
    {
        let array: [ComponentKind; N] = [component;N];
        assert(array@ =~= Seq::new(N as nat, |i: int| component));
        self.add_array_wired_loop(array)
    }
}

} // verus!
