//! Drawing wires.

use super::{listed, SimulationEngine};
use crate::circuit::WireError;
use crate::component::ComponentId;
use crate::dag::{dag_edges, dag_nodes, dag_try_update_edge};
use crate::paths::{lemma_reaches_image, reaches};
use crate::table::{table_get, table_insert};
use crate::wiring::{holds_place, lemma_insert_contains, with_edge, Edge};
use vstd::prelude::*;

verus! {

impl SimulationEngine {
    /// Two combinational components reach each other in the circuit exactly
    /// when their nodes do so in the graph.
    proof fn lemma_reaches_in_dag(&self, x: usize, y: usize)
        requires
            self.wf(),
            self@.contains(x),
            self@.contains(y),
            self@.kinds[x as int].combinational(),
            self@.kinds[y as int].combinational(),
        ensures
            reaches(self@.dag_edges(), x, y) <==> reaches(
                dag_edges(self.tickless_dag),
                self.dag_slots@[x],
                self.dag_slots@[y],
            ),
    {
        let slot_of = |id: usize| self.dag_slots@[id];
        let owner_of = |slot: usize| self.dag_owners@[slot as int];
        assert(self.nodes@[x].kind.combinational() && self.nodes@[y].kind.combinational());
        if reaches(self@.dag_edges(), x, y) {
            lemma_reaches_image(self@.dag_edges(), dag_edges(self.tickless_dag), slot_of, x, y);
        }
        if reaches(dag_edges(self.tickless_dag), slot_of(x), slot_of(y)) {
            lemma_reaches_image(
                dag_edges(self.tickless_dag),
                self@.dag_edges(),
                owner_of,
                slot_of(x),
                slot_of(y),
            );
        }
    }

    /// Whether a list of the table holds a wire between the same pins is
    /// whether the circuit holds that very wire.
    proof fn lemma_place_taken(&self, e: Edge)
        requires
            self.wf(),
            self@.fits(e),
        ensures
            self.incoming_edges@.contains_key(e.child) ==> (holds_place(
                self.incoming_edges@[e.child]@,
                e,
                true,
            ) <==> self@.edges.contains(e)),
            self.outgoing_edges@.contains_key(e.parent) ==> (holds_place(
                self.outgoing_edges@[e.parent]@,
                e,
                false,
            ) <==> self@.edges.contains(e)),
            !self.incoming_edges@.contains_key(e.child) ==> !self@.edges.contains(e),
            !self.outgoing_edges@.contains_key(e.parent) ==> !self@.edges.contains(e),
    {
        if self.incoming_edges@.contains_key(e.child) {
            let list = self.incoming_edges@[e.child]@;
            if holds_place(list, e, true) {
                let i = choose|i: int| 0 <= i < list.len() && #[trigger] list[i].same_place(e, true);
                assert(self.incoming_edges@[e.child]@[i].child == e.child);
                assert(listed(self.incoming_edges@, list[i].child, list[i]));
                assert(self@.edges.contains(list[i]));
                assert(self@.fits(list[i]));
                assert(list[i] == e);
            }
            if self@.edges.contains(e) {
                let i = choose|i: int| 0 <= i < list.len() && list[i] == e;
                assert(list[i].same_place(e, true));
            }
        }
        assert(listed(self.incoming_edges@, e.child, e) <==> listed(
            self.outgoing_edges@,
            e.parent,
            e,
        ));
        if self.outgoing_edges@.contains_key(e.parent) {
            let list = self.outgoing_edges@[e.parent]@;
            if holds_place(list, e, false) {
                let i = choose|i: int|
                    0 <= i < list.len() && #[trigger] list[i].same_place(e, false);
                assert(self.outgoing_edges@[e.parent]@[i].parent == e.parent);
                assert(listed(self.outgoing_edges@, list[i].parent, list[i]));
                assert(listed(self.incoming_edges@, list[i].child, list[i]));
                assert(self@.edges.contains(list[i]));
                assert(self@.fits(list[i]));
                assert(list[i] == e);
            }
            if self@.edges.contains(e) {
                let i = choose|i: int| 0 <= i < list.len() && list[i] == e;
                assert(list[i].same_place(e, false));
            }
        }
    }

    /// Joins an output pin of `parent` to an input pin of `child`.
    ///
    /// The wire is refused where a component does not exist, where a pin does
    /// not exist, and where it would close a cycle of combinational
    /// components; the engine then stays as it is. Otherwise the answer says
    /// whether the wire is new: drawing a wire again changes nothing.
    pub fn wire(
        &mut self,
        parent: ComponentId,
        child: ComponentId,
        parent_output: usize,
        child_input: usize,
    ) -> (outcome: Result<bool, WireError>)
        requires
            old(self).wf(),
        ensures
            final(self).wf(),
            outcome == old(self)@.wire_outcome(parent@, child@, parent_output, child_input),
            final(self)@ == old(self)@.wired(parent@, child@, parent_output, child_input),
    {
        let ghost before = *self;
        let p = parent.index();
        let c = child.index();
        if p >= self.id_gen.0 || c >= self.id_gen.0 {
            return Err(WireError::UnknownComponent);
        }
        let parent_kind = table_get(&self.nodes, p).unwrap().kind;
        let child_kind = table_get(&self.nodes, c).unwrap().kind;
        if parent_output >= parent_kind.arity().1 {
            return Err(WireError::PinOutOfRange);
        }
        if child_input >= child_kind.arity().0 {
            return Err(WireError::ArityMismatch);
        }
        let edge = Edge { parent: p, child: c, parent_kind, child_kind, parent_output, child_input };
        assert(edge == before@.edge(p, c, parent_output, child_input));
        assert(before@.fits(edge));
        if !parent_kind.is_delay() && !child_kind.is_delay() {
            let a = *table_get(&self.dag_slots, p).unwrap();
            let b = *table_get(&self.dag_slots, c).unwrap();
            proof {
                before.lemma_reaches_in_dag(c, p);
                assert(dag_nodes(self.tickless_dag)[a as int] == a);
                assert(dag_nodes(self.tickless_dag)[b as int] == b);
            }
            let accepted = dag_try_update_edge(&mut self.tickless_dag, a, b);
            if !accepted {
                proof {
                    Self::lemma_dag_replaced(&before, self);
                }
                return Err(WireError::CycleDetected);
            }
        }
        assert(!before@.closes_cycle(p, c));
        proof {
            before.lemma_place_taken(edge);
        }
        let empty: Vec<Edge> = Vec::new();
        let (outgoing, _) = match table_get(&self.outgoing_edges, p) {
            Some(list) => with_edge(list, edge, false),
            None => with_edge(&empty, edge, false),
        };
        let (incoming, added) = match table_get(&self.incoming_edges, c) {
            Some(list) => with_edge(list, edge, true),
            None => with_edge(&empty, edge, true),
        };
        let ghost old_outgoing = if before.outgoing_edges@.contains_key(p) {
            before.outgoing_edges@[p]@
        } else {
            Seq::empty()
        };
        let ghost old_incoming = if before.incoming_edges@.contains_key(c) {
            before.incoming_edges@[c]@
        } else {
            Seq::empty()
        };
        table_insert(&mut self.outgoing_edges, p, outgoing);
        table_insert(&mut self.incoming_edges, c, incoming);
        proof {
            let after = *self;
            assert(added == !before@.edges.contains(edge));
            assert forall|e: Edge|
                #![trigger incoming@.contains(e)]
                #![trigger old_incoming.contains(e)]
                incoming@.contains(e) <==> (e == edge || old_incoming.contains(e)) by {
                if added {
                    let at = choose|at: int|
                        0 <= at <= old_incoming.len() && incoming@ == #[trigger] old_incoming.insert(
                            at,
                            edge,
                        );
                    lemma_insert_contains(old_incoming, at, edge, e);
                } else {
                    assert(listed(before.incoming_edges@, edge.child, edge));
                }
            }
            assert forall|e: Edge|
                #![trigger outgoing@.contains(e)]
                #![trigger old_outgoing.contains(e)]
                outgoing@.contains(e) <==> (e == edge || old_outgoing.contains(e)) by {
                if added {
                    let at = choose|at: int|
                        0 <= at <= old_outgoing.len() && outgoing@ == #[trigger] old_outgoing.insert(
                            at,
                            edge,
                        );
                    lemma_insert_contains(old_outgoing, at, edge, e);
                } else {
                    assert(listed(before.incoming_edges@, edge.child, edge));
                    assert(listed(before.outgoing_edges@, edge.parent, edge));
                }
            }
            assert forall|e: Edge|
                listed(after.incoming_edges@, e.child, e) <==> (e == edge || listed(
                    before.incoming_edges@,
                    e.child,
                    e,
                )) by {
                if e.child == c {
                    assert(after.incoming_edges@[c]@ == incoming@);
                    assert(incoming@.contains(e) <==> (e == edge || old_incoming.contains(e)));
                    if !before.incoming_edges@.contains_key(c) {
                        assert(!old_incoming.contains(e));
                    }
                } else {
                    assert(after.incoming_edges@.contains_key(e.child)
                        == before.incoming_edges@.contains_key(e.child));
                }
            }
            assert forall|e: Edge|
                listed(after.outgoing_edges@, e.parent, e) <==> (e == edge || listed(
                    before.outgoing_edges@,
                    e.parent,
                    e,
                )) by {
                if e.parent == p {
                    assert(after.outgoing_edges@[p]@ == outgoing@);
                    assert(outgoing@.contains(e) <==> (e == edge || old_outgoing.contains(e)));
                    if !before.outgoing_edges@.contains_key(p) {
                        assert(!old_outgoing.contains(e));
                    }
                } else {
                    assert(after.outgoing_edges@.contains_key(e.parent)
                        == before.outgoing_edges@.contains_key(e.parent));
                }
            }
            assert(after@.edges =~= before@.edges.insert(edge));
            assert(after@.kinds =~= before@.kinds);
            assert(after@.states =~= before@.states);
            assert(after@ == before@.with_edge(edge));
            before@.lemma_with_edge_well_formed(edge);
            before@.lemma_with_edge_dag(edge);
            assert(after.registry_inv());
            assert(after.lists_inv()) by {
                assert forall|k: usize, j: int|
                    #![trigger after.incoming_edges@[k]@[j]]
                    after.incoming_edges@.contains_key(k) && 0 <= j
                        < after.incoming_edges@[k]@.len() implies after.incoming_edges@[k]@[j].child
                    == k by {
                    let e = after.incoming_edges@[k]@[j];
                    if k == c {
                        assert(incoming@.contains(e));
                        if e != edge {
                            let i = choose|i: int| 0 <= i < old_incoming.len() && old_incoming[i] == e;
                            assert(before.incoming_edges@[c]@[i].child == c);
                        }
                    } else {
                        assert(before.incoming_edges@[k]@[j].child == k);
                    }
                }
                assert forall|k: usize, j: int|
                    #![trigger after.outgoing_edges@[k]@[j]]
                    after.outgoing_edges@.contains_key(k) && 0 <= j
                        < after.outgoing_edges@[k]@.len() implies after.outgoing_edges@[k]@[j].parent
                    == k by {
                    let e = after.outgoing_edges@[k]@[j];
                    if k == p {
                        assert(outgoing@.contains(e));
                        if e != edge {
                            let i = choose|i: int| 0 <= i < old_outgoing.len() && old_outgoing[i] == e;
                            assert(before.outgoing_edges@[p]@[i].parent == p);
                        }
                    } else {
                        assert(before.outgoing_edges@[k]@[j].parent == k);
                    }
                }
            }
            assert(after.dag_inv()) by {
                let count = after.dag_owners@.len();
                assert(before.nodes@[p].kind == parent_kind);
                assert(before.nodes@[c].kind == child_kind);
                assert forall|a: usize, b: usize| #[trigger]
                    dag_edges(after.tickless_dag).contains((a, b)) implies {
                    &&& a < count
                    &&& b < count
                    &&& after@.dag_edges().contains(
                        (after.dag_owners@[a as int], after.dag_owners@[b as int]),
                    )
                } by {
                    if dag_edges(before.tickless_dag).contains((a, b)) {
                    } else {
                        assert(a == before.dag_slots@[p] && b == before.dag_slots@[c]);
                    }
                }
                assert forall|x: usize, y: usize| #[trigger]
                    after@.dag_edges().contains((x, y)) implies dag_edges(
                    after.tickless_dag,
                ).contains((after.dag_slots@[x], after.dag_slots@[y])) by {
                    if before@.dag_edges().contains((x, y)) {
                    } else {
                        assert(x == p && y == c);
                    }
                }
            }
        }
        Ok(added)
    }

    /// Joins the first output pin of `parent` to the first input pin of
    /// `child`.
    pub fn wire0(&mut self, parent: ComponentId, child: ComponentId) -> (outcome: Result<
        bool,
        WireError,
    >)
        requires
            old(self).wf(),
        ensures
            final(self).wf(),
            outcome == old(self)@.wire_outcome(parent@, child@, 0, 0),
            final(self)@ == old(self)@.wired(parent@, child@, 0, 0),
    {
        self.wire(parent, child, 0, 0)
    }

    /// Where only the graph's own bookkeeping has changed, and neither its
    /// nodes nor its edges, the engine is as it was.
    proof fn lemma_dag_replaced(before: &SimulationEngine, after: &SimulationEngine)
        requires
            before.wf(),
            after.nodes == before.nodes,
            after.incoming_edges == before.incoming_edges,
            after.outgoing_edges == before.outgoing_edges,
            after.dag_slots == before.dag_slots,
            after.dag_owners == before.dag_owners,
            after.id_gen == before.id_gen,
            after.current_tick == before.current_tick,
            dag_nodes(after.tickless_dag) == dag_nodes(before.tickless_dag),
            dag_edges(after.tickless_dag) == dag_edges(before.tickless_dag),
        ensures
            after.wf(),
            after@ == before@,
    {
        assert(after@.kinds =~= before@.kinds);
        assert(after@.states =~= before@.states);
        assert(after@.edges =~= before@.edges);
    }
}

} // verus!
