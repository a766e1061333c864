//! One tick: the delays take over their inputs, then the combinational
//! components are brought up to date.

use super::{copy_of, SimulationEngine};
use crate::circuit::Circuit;
use crate::component::{State, StateView};
use crate::dag::{dag_edges, dag_has_successor, dag_node_list, dag_nodes};
use crate::gates::evaluate;
use crate::paths::{
    acyclic, is_path, lemma_acyclic_path_distinct, lemma_distinct_below_bound,
    lemma_edge_reaches, lemma_path_prepend, lemma_path_push, lemma_reaches_self,
    lemma_reaches_transitive, path_between, reaches,
};
use crate::table::table_get;
use crate::wiring::{ordered, Edge};
use vstd::prelude::*;

verus! {

/// Whether none of the first `upto` entries of the list is for the component.
spec fn untouched(edits: Seq<(usize, usize, bool)>, upto: int, id: usize) -> bool {
    forall|m: int| 0 <= m < upto ==> (#[trigger] edits[m]).0 != id
}

/// Whether entry `at` is, among the first `upto` entries of the list, the
/// last one for its component.
spec fn last_for(edits: Seq<(usize, usize, bool)>, upto: int, at: int) -> bool {
    &&& 0 <= at < upto
    &&& forall|later: int| at < later < upto ==> (#[trigger] edits[later]).0 != edits[at].0
}

impl SimulationEngine {
    /// Brings a combinational component up to the current tick, and before
    /// it each combinational component that drives it, and returns its
    /// outputs. A component that is up to date already is left as it is.
    ///
    /// `trail` is the chain of components that wait for this one, from this
    /// one on. As the graph has no cycle, no component is on it twice, which
    /// bounds how deep the calls can go.
    fn recursive_eval_and_update(
        &mut self,
        id: usize,
        version: u64,
        Ghost(trail): Ghost<Seq<usize>>,
    ) -> (values: Vec<bool>)
        requires
            old(self).wf(),
            old(self)@.evaluating(),
            version == old(self)@.tick,
            old(self)@.contains(id),
            old(self)@.kinds[id as int].combinational(),
            is_path(old(self)@.dag_edges(), trail),
            trail.first() == id,
            forall|i: int| 0 <= i < trail.len() ==> trail[i] < old(self)@.kinds.len(),
        ensures
            final(self).wf(),
            final(self)@.evaluating(),
            final(self)@.kinds == old(self)@.kinds,
            final(self)@.edges == old(self)@.edges,
            final(self)@.tick == old(self)@.tick,
            final(self)@.states.len() == old(self)@.states.len(),
            final(self)@.up_to_date(id),
            values@ == final(self)@.state(id).values,
            forall|x: usize|
                old(self)@.contains(x) && #[trigger] final(self)@.state(x) != old(self)@.state(x)
                    ==> {
                    &&& !old(self)@.up_to_date(x)
                    &&& old(self)@.kinds[x as int].combinational()
                    &&& final(self)@.up_to_date(x)
                    &&& reaches(old(self)@.dag_edges(), x, id)
                },
        decreases old(self)@.kinds.len() - trail.len(),
    {
        let ghost entry = self@;
        let ghost graph = entry.dag_edges();
        let component = table_get(&self.nodes, id).unwrap();
        let kind = component.kind;
        if component.state.version() == version {
            return copy_of(component.state.values());
        }
        let arity = kind.arity().0;
        let mut inputs: Vec<bool> = Vec::new();
        while inputs.len() < arity
            invariant
                inputs.len() <= arity,
                forall|pin: int| 0 <= pin < inputs.len() ==> !inputs[pin],
            decreases arity - inputs.len(),
        {
            inputs.push(false);
        }
        let incoming = self.wires_into(id);
        let mut next: usize = 0;
        while next < incoming.len()
            invariant
                next <= incoming.len(),
                entry == old(self)@,
                self.wf(),
                self@.evaluating(),
                self@.kinds == entry.kinds,
                self@.edges == entry.edges,
                self@.tick == entry.tick,
                self@.states.len() == entry.states.len(),
                entry.well_formed(),
                version == entry.tick,
                entry.contains(id),
                kind == entry.kinds[id as int],
                kind.combinational(),
                arity == kind.inputs(),
                graph == entry.dag_edges(),
                is_path(graph, trail),
                trail.first() == id,
                forall|i: int| 0 <= i < trail.len() ==> trail[i] < entry.kinds.len(),
                !entry.up_to_date(id),
                !self@.up_to_date(id),
                forall|e: Edge| #[trigger] incoming@.contains(e) <==> entry.drives(e, id),
                forall|x: usize|
                    entry.contains(x) && #[trigger] self@.state(x) != entry.state(x) ==> {
                        &&& !entry.up_to_date(x)
                        &&& entry.kinds[x as int].combinational()
                        &&& self@.up_to_date(x)
                        &&& reaches(graph, x, id)
                    },
                inputs.len() == arity,
                forall|pin: int|
                    0 <= pin < arity ==> (#[trigger] inputs[pin] <==> exists|k: int|
                        0 <= k < next && (#[trigger] incoming[k]).child_input == pin
                            && self@.signal(incoming[k])),
                forall|k: int|
                    0 <= k < next && (#[trigger] incoming[k]).parent_kind.combinational()
                        ==> self@.up_to_date(incoming[k].parent),
            decreases incoming.len() - next,
        {
            let ghost before = self@;
            let e = incoming[next];
            proof {
                assert(incoming@.contains(e));
                assert(entry.drives(e, id));
                assert(entry.fits(e));
            }
            let value = if e.parent_kind.is_delay() {
                assert(self@.state(e.parent).values.len() == self@.kinds[e.parent as int].outputs());
                assert(self.nodes@[e.parent].state@ == self@.state(e.parent));
                table_get(&self.nodes, e.parent).unwrap().state.value_at(e.parent_output)
            } else {
                let ghost longer = seq![e.parent] + trail;
                proof {
                    assert(graph.contains((e.parent, e.child)));
                    lemma_path_prepend(graph, e.parent, trail);
                    lemma_acyclic_path_distinct(graph, longer);
                    lemma_distinct_below_bound(longer, entry.kinds.len());
                }
                let outputs = self.recursive_eval_and_update(e.parent, version, Ghost(longer));
                proof {
                    lemma_edge_reaches(graph, e.parent, id);
                    assert forall|x: usize|
                        entry.contains(x) && #[trigger] self@.state(x) != entry.state(
                            x,
                        ) implies {
                        &&& !entry.up_to_date(x)
                        &&& entry.kinds[x as int].combinational()
                        &&& self@.up_to_date(x)
                        &&& reaches(graph, x, id)
                    } by {
                        if self@.state(x) != before.state(x) {
                            lemma_reaches_transitive(graph, x, e.parent, id);
                            if before.state(x) != entry.state(x) {
                                assert(before.up_to_date(x));
                            }
                        } else {
                            assert(before.state(x) != entry.state(x));
                        }
                    }
                    if self@.state(id) != before.state(id) {
                        Self::lemma_back_wire_closes_cycle(graph, id, e.parent);
                    }
                }
                outputs[e.parent_output]
            };
            proof {
                assert(value == self@.signal(e));
                assert forall|k: int| 0 <= k < next implies self@.signal(#[trigger] incoming[k])
                    == before.signal(incoming[k]) by {
                    let w = incoming[k];
                    assert(incoming@.contains(w));
                    assert(entry.drives(w, id));
                    assert(entry.fits(w));
                    if self@.state(w.parent) != before.state(w.parent) {
                        assert(!before.up_to_date(w.parent));
                    }
                }
            }
            let merged = inputs[e.child_input] || value;
            let ghost earlier = inputs@;
            inputs.set(e.child_input, merged);
            proof {
                assert forall|pin: int| 0 <= pin < arity implies (#[trigger] inputs[pin]
                    <==> exists|k: int|
                    0 <= k < next + 1 && (#[trigger] incoming[k]).child_input == pin
                        && self@.signal(incoming[k])) by {
                    if earlier[pin] {
                        let k = choose|k: int|
                            0 <= k < next && (#[trigger] incoming[k]).child_input == pin
                                && before.signal(incoming[k]);
                        assert(self@.signal(incoming[k]));
                    }
                    if pin == e.child_input && value {
                        assert(incoming[next as int].child_input == pin);
                    }
                    if exists|k: int|
                        0 <= k < next + 1 && (#[trigger] incoming[k]).child_input == pin
                            && self@.signal(incoming[k]) {
                        let k = choose|k: int|
                            0 <= k < next + 1 && (#[trigger] incoming[k]).child_input == pin
                                && self@.signal(incoming[k]);
                        if k < next {
                            assert(before.signal(incoming[k]));
                        }
                    }
                }
                assert forall|k: int|
                    0 <= k < next + 1 && (
                    #[trigger] incoming[k]).parent_kind.combinational() implies self@.up_to_date(
                    incoming[k].parent,
                ) by {
                    if k < next {
                        let w = incoming[k];
                        assert(before.up_to_date(w.parent));
                        assert(incoming@.contains(w));
                        assert(entry.fits(w));
                        assert(self@.state(w.parent) == before.state(w.parent));
                    }
                }
            }
            next += 1;
        }
        let ghost middle = self@;
        let values = evaluate(kind, &inputs);
        let result = copy_of(values.as_slice());
        proof {
            assert forall|pin: int| 0 <= pin < arity implies inputs[pin] == middle.input(
                id,
                pin as usize,
            ) by {
                if inputs[pin] {
                    let k = choose|k: int|
                        0 <= k < next && (#[trigger] incoming[k]).child_input == pin
                            && middle.signal(incoming[k]);
                    assert(incoming@.contains(incoming[k]));
                    assert(middle.drives(incoming[k], id));
                }
                if middle.input(id, pin as usize) {
                    let w = choose|w: Edge| #[trigger]
                        middle.drives(w, id) && w.child_input == pin as usize && middle.signal(w);
                    assert(entry.drives(w, id));
                    assert(incoming@.contains(w));
                    let k = choose|k: int| 0 <= k < incoming@.len() && incoming@[k] == w;
                    assert(incoming[k].child_input == pin);
                }
            }
            assert(inputs@ =~= middle.inputs(id));
            assert forall|w: Edge| #[trigger]
                middle.drives(w, id) && w.parent_kind.combinational() implies middle.up_to_date(
                w.parent,
            ) by {
                assert(entry.drives(w, id));
                assert(incoming@.contains(w));
                let k = choose|k: int| 0 <= k < incoming@.len() && incoming@[k] == w;
                assert(incoming[k].parent_kind.combinational());
            }
            middle.lemma_bring_up_to_date(id, values@);
            lemma_reaches_self(graph, id);
        }
        self.set_state(id, State::new(values, version));
        proof {
            assert(self@ == middle.with_state(id, StateView { values: result@, version }));
            assert forall|x: usize|
                entry.contains(x) && #[trigger] self@.state(x) != entry.state(x) implies {
                &&& !entry.up_to_date(x)
                &&& entry.kinds[x as int].combinational()
                &&& self@.up_to_date(x)
                &&& reaches(graph, x, id)
            } by {
                if x != id {
                    assert(self@.state(x) == middle.state(x));
                    assert(middle.state(x) != entry.state(x));
                }
            }
        }
        result
    }

    /// Where `x` reaches `y` and an edge leads back from `y` to `x`, the
    /// graph has a cycle.
    proof fn lemma_back_wire_closes_cycle(graph: Set<(usize, usize)>, x: usize, y: usize)
        requires
            reaches(graph, x, y),
            graph.contains((y, x)),
        ensures
            !acyclic(graph),
    {
        let p = choose|p: Seq<usize>| #[trigger] path_between(graph, p, x, y);
        lemma_path_push(graph, p, x);
        assert(is_path(graph, p.push(x)));
    }

    /// What the delays are to take over at a tick: for each delay, in the
    /// order of the numbers, and for each wire that ends at it, in the order
    /// of the wires, the delay, the input pin and what the wire carries now.
    fn delay_edits(&self) -> (edits: Vec<(usize, usize, bool)>)
        requires
            self.wf(),
        ensures
            forall|m: int| 0 <= m < edits.len() ==> self@.samples(#[trigger] edits[m]),
            forall|id: usize| #[trigger]
                self@.driven(id) && self@.contains(id) && !self@.kinds[id as int].combinational()
                    ==> exists|at: int| self@.settles(edits@, at, id),
    {
        let count = self.id_gen.0;
        let mut edits: Vec<(usize, usize, bool)> = Vec::new();
        let mut id: usize = 0;
        while id < count
            invariant
                id <= count,
                count == self@.kinds.len(),
                self.wf(),
                forall|m: int| 0 <= m < edits.len() ==> self@.samples(#[trigger] edits[m]),
                forall|m: int| 0 <= m < edits.len() ==> (#[trigger] edits[m]).0 < id,
                forall|d: usize| #[trigger]
                    self@.driven(d) && d < id && !self@.kinds[d as int].combinational()
                        ==> exists|at: int| self@.settles(edits@, at, d),
            decreases count - id,
        {
            if table_get(&self.nodes, id).unwrap().kind.is_delay() {
                let incoming = self.wires_into(id);
                let ghost base = edits@;
                let mut next: usize = 0;
                while next < incoming.len()
                    invariant
                        next <= incoming.len(),
                        id < count,
                        count == self@.kinds.len(),
                        self.wf(),
                        !self@.kinds[id as int].combinational(),
                        ordered(incoming@, true),
                        forall|e: Edge| #[trigger] incoming@.contains(e) <==> self@.drives(e, id),
                        edits@.len() == base.len() + next,
                        edits@.subrange(0, base.len() as int) == base,
                        forall|m: int| 0 <= m < edits.len() ==> self@.samples(#[trigger] edits[m]),
                        forall|m: int| 0 <= m < base.len() ==> (#[trigger] edits[m]).0 < id,
                        forall|m: int|
                            base.len() <= m < edits.len() ==> (#[trigger] edits[m]).0 == id,
                        next > 0 ==> edits[edits.len() - 1] == (
                            id,
                            incoming[next - 1].child_input,
                            self@.signal(incoming[next - 1]),
                        ),
                    decreases incoming.len() - next,
                {
                    let e = incoming[next];
                    proof {
                        assert(incoming@.contains(e));
                        assert(self@.drives(e, id));
                        assert(self@.fits(e));
                        assert(self@.state(e.parent).values.len()
                            == self@.kinds[e.parent as int].outputs());
                        assert(self.nodes@[e.parent].state@ == self@.state(e.parent));
                    }
                    let value = table_get(&self.nodes, e.parent).unwrap().state.value_at(
                        e.parent_output,
                    );
                    let ghost shorter = edits@;
                    edits.push((id, e.child_input, value));
                    proof {
                        assert(value == self@.signal(e));
                        let edit = (id, e.child_input, value);
                        assert(self@.drives(e, edit.0) && edit.1 == e.child_input && edit.2
                            == self@.signal(e));
                        assert(self@.contains(edit.0));
                        assert(!self@.kinds[edit.0 as int].combinational());
                        assert(self@.samples(edit));
                        assert(edits@.subrange(0, base.len() as int) =~= shorter.subrange(
                            0,
                            base.len() as int,
                        ));
                        assert forall|m: int| 0 <= m < edits.len() implies self@.samples(
                            #[trigger] edits[m],
                        ) by {
                            if m < shorter.len() {
                                assert(edits[m] == shorter[m]);
                            }
                        }
                    }
                    next += 1;
                }
                proof {
                    assert forall|d: usize| #[trigger]
                        self@.driven(d) && d < id + 1
                            && !self@.kinds[d as int].combinational() implies exists|at: int|
                        self@.settles(edits@, at, d) by {
                        if d < id {
                            let at = choose|at: int| self@.settles(base, at, d);
                            assert(edits@[at] == base[at]);
                            assert forall|later: int| at < later < edits.len() implies (
                            #[trigger] edits[later]).0 != d by {
                                if later < base.len() {
                                    assert(edits@[later] == base[later]);
                                }
                            }
                            let e = choose|e: Edge| #[trigger]
                                self@.last_driver(e, d) && base[at].1 == e.child_input && base[at].2
                                    == self@.signal(e);
                            assert(self@.last_driver(e, d));
                            assert(self@.settles(edits@, at, d));
                        } else {
                            let w = choose|w: Edge| #[trigger] self@.drives(w, id);
                            assert(incoming@.contains(w));
                            let last = incoming[incoming.len() - 1];
                            assert(incoming@.contains(last));
                            assert(self@.drives(last, id));
                            assert forall|other: Edge| #[trigger]
                                self@.drives(other, id) implies other == last || other.precedes(
                                last,
                                true,
                            ) by {
                                assert(incoming@.contains(other));
                                let i = choose|i: int|
                                    0 <= i < incoming@.len() && incoming@[i] == other;
                                if i < incoming.len() - 1 {
                                    assert(incoming@[i].precedes(
                                        incoming@[incoming.len() - 1],
                                        true,
                                    ));
                                }
                            }
                            assert(self@.last_driver(last, id));
                            assert(self@.settles(edits@, edits.len() - 1, id));
                        }
                    }
                }
            }
            id += 1;
        }
        edits
    }

    /// Lets each delay take over what its input carries: the collected
    /// values are written one after the other, so that of several wires into
    /// one delay the last one counts.
    fn latch_delays(&mut self)
        requires
            old(self).wf(),
        ensures
            final(self).wf(),
            final(self)@.kinds == old(self)@.kinds,
            final(self)@.edges == old(self)@.edges,
            final(self)@.tick == old(self)@.tick,
            final(self)@.states.len() == old(self)@.states.len(),
            forall|id: usize| #[trigger]
                old(self)@.contains(id) && old(self)@.kinds[id as int].combinational()
                    ==> final(self)@.state(id) == old(self)@.state(id),
            forall|id: usize| #[trigger]
                old(self)@.contains(id) && !old(self)@.kinds[id as int].combinational() ==> {
                    &&& final(self)@.state(id).version == old(self)@.state(id).version
                    &&& old(self)@.latches(id, final(self)@.state(id).values)
                },
    {
        let ghost start = self@;
        let edits = self.delay_edits();
        let mut next: usize = 0;
        while next < edits.len()
            invariant
                next <= edits.len(),
                start.well_formed(),
                self.wf(),
                self@.kinds == start.kinds,
                self@.edges == start.edges,
                self@.tick == start.tick,
                self@.states.len() == start.states.len(),
                forall|m: int| 0 <= m < edits.len() ==> start.samples(#[trigger] edits[m]),
                forall|id: usize|
                    start.contains(id) ==> (#[trigger] self@.state(id)).version == start.state(
                        id,
                    ).version,
                forall|id: usize| #[trigger]
                    untouched(edits@, next as int, id) && start.contains(id) ==> self@.state(id)
                        == start.state(id),
                forall|m: int| #[trigger]
                    last_for(edits@, next as int, m) ==> self@.state(edits[m].0).values
                        == start.state(edits[m].0).values.update(edits[m].1 as int, edits[m].2),
            decreases edits.len() - next,
        {
            let ghost before = self@;
            let (id, pin, value) = edits[next];
            proof {
                assert(start.samples(edits[next as int]));
                let e = choose|e: Edge| #[trigger]
                    start.drives(e, id) && pin == e.child_input && value == start.signal(e);
                assert(start.fits(e));
                assert(pin == 0);
                assert(start.state(id).values.len() == 1);
                assert(before.state(id).values.len() == before.kinds[id as int].outputs());
            }
            self.write_output(id, pin, value);
            proof {
                assert(self@.state(id).values =~= start.state(id).values.update(
                    pin as int,
                    value,
                ));
                assert forall|x: usize| start.contains(x) implies (#[trigger] self@.state(
                    x,
                )).version == start.state(x).version by {
                    assert(before.state(x).version == start.state(x).version);
                }
                assert forall|x: usize| #[trigger]
                    untouched(edits@, next + 1, x) && start.contains(x) implies self@.state(x)
                    == start.state(x) by {
                    assert(edits[next as int].0 != x);
                    assert(untouched(edits@, next as int, x));
                }
                assert forall|m: int| #[trigger] last_for(edits@, next + 1, m) implies self@.state(
                    edits[m].0,
                ).values == start.state(edits[m].0).values.update(
                    edits[m].1 as int,
                    edits[m].2,
                ) by {
                    if m < next {
                        assert(edits[next as int].0 != edits[m].0);
                        assert(last_for(edits@, next as int, m));
                    }
                }
            }
            next += 1;
        }
        proof {
            assert forall|id: usize| #[trigger]
                start.contains(id) && start.kinds[id as int].combinational() implies self@.state(
                id,
            ) == start.state(id) by {
                assert forall|m: int| 0 <= m < edits.len() implies (#[trigger] edits[m]).0
                    != id by {
                    assert(start.samples(edits[m]));
                }
                assert(untouched(edits@, edits.len() as int, id));
            }
            assert forall|id: usize| #[trigger]
                start.contains(id) && !start.kinds[id as int].combinational() implies {
                &&& self@.state(id).version == start.state(id).version
                &&& start.latches(id, self@.state(id).values)
            } by {
                if start.driven(id) {
                    let at = choose|at: int| start.settles(edits@, at, id);
                    let e = choose|e: Edge| #[trigger]
                        start.last_driver(e, id) && edits[at].1 == e.child_input && edits[at].2
                            == start.signal(e);
                    assert(last_for(edits@, edits.len() as int, at));
                    assert(start.last_driver(e, id));
                } else {
                    assert forall|m: int| 0 <= m < edits.len() implies (#[trigger] edits[m]).0
                        != id by {
                        assert(start.samples(edits[m]));
                    }
                    assert(untouched(edits@, edits.len() as int, id));
                }
            }
        }
    }

    /// The combinational components from which no wire leads to another
    /// combinational component, in the order in which they were added.
    fn subgraph_leaves(&self) -> (leaves: Vec<usize>)
        requires
            self.wf(),
        ensures
            forall|i: int|
                0 <= i < leaves.len() ==> {
                    &&& self@.contains(#[trigger] leaves[i])
                    &&& self@.kinds[leaves[i] as int].combinational()
                    &&& !self@.has_successor(leaves[i])
                },
            forall|id: usize| #[trigger]
                self@.has_successor(id) || leaves@.contains(id) || !self@.contains(id)
                    || !self@.kinds[id as int].combinational(),
    {
        let slots = dag_node_list(&self.tickless_dag);
        let mut leaves: Vec<usize> = Vec::new();
        let mut next: usize = 0;
        while next < slots.len()
            invariant
                next <= slots.len(),
                self.wf(),
                slots@ == dag_nodes(self.tickless_dag),
                slots.len() == self.dag_owners.len(),
                forall|i: int|
                    0 <= i < leaves.len() ==> {
                        &&& self@.contains(#[trigger] leaves[i])
                        &&& self@.kinds[leaves[i] as int].combinational()
                        &&& !self@.has_successor(leaves[i])
                    },
                forall|slot: int|
                    0 <= slot < next ==> self@.has_successor(#[trigger] self.dag_owners@[slot])
                        || leaves@.contains(self.dag_owners@[slot]),
            decreases slots.len() - next,
        {
            let slot = slots[next];
            assert(slot == next);
            let owner = self.dag_owners[slot];
            let ghost shorter = leaves@;
            if !dag_has_successor(&self.tickless_dag, slot) {
                leaves.push(owner);
                proof {
                    if self@.has_successor(owner) {
                        let y = choose|y: usize| #[trigger] self@.dag_edges().contains((owner, y));
                        assert(dag_edges(self.tickless_dag).contains(
                            (self.dag_slots@[owner], self.dag_slots@[y]),
                        ));
                    }
                    assert(leaves@[shorter.len() as int] == owner);
                    assert forall|i: int| 0 <= i < leaves.len() implies {
                        &&& self@.contains(#[trigger] leaves[i])
                        &&& self@.kinds[leaves[i] as int].combinational()
                        &&& !self@.has_successor(leaves[i])
                    } by {
                        if i < shorter.len() {
                            assert(leaves[i] == shorter[i]);
                        }
                    }
                }
            } else {
                proof {
                    let after = choose|after: usize|
                        dag_edges(self.tickless_dag).contains((slot, after));
                    assert(self@.dag_edges().contains(
                        (self.dag_owners@[slot as int], self.dag_owners@[after as int]),
                    ));
                }
            }
            proof {
                assert forall|s: int| 0 <= s < next + 1 implies self@.has_successor(
                    #[trigger] self.dag_owners@[s],
                ) || leaves@.contains(self.dag_owners@[s]) by {
                    if s < next {
                        if shorter.contains(self.dag_owners@[s]) {
                            let i = choose|i: int|
                                0 <= i < shorter.len() && shorter[i] == self.dag_owners@[s];
                            assert(leaves@[i] == self.dag_owners@[s]);
                        }
                    }
                }
            }
            next += 1;
        }
        proof {
            assert forall|id: usize| #[trigger]
                self@.has_successor(id) || leaves@.contains(id) || !self@.contains(id)
                    || !self@.kinds[id as int].combinational() by {
                if self@.contains(id) && self@.kinds[id as int].combinational() {
                    assert(self.nodes@[id].kind.combinational());
                    let slot = self.dag_slots@[id];
                    assert(self.dag_owners@[slot as int] == id);
                }
            }
        }
        leaves
    }

    /// Where only the tick has moved on, the engine is still in order.
    proof fn lemma_tick_advanced(before: &SimulationEngine, after: &SimulationEngine)
        requires
            before.wf(),
            after.nodes == before.nodes,
            after.incoming_edges == before.incoming_edges,
            after.outgoing_edges == before.outgoing_edges,
            after.tickless_dag == before.tickless_dag,
            after.dag_slots == before.dag_slots,
            after.dag_owners == before.dag_owners,
            after.id_gen == before.id_gen,
            after.current_tick >= before.current_tick,
        ensures
            after.wf(),
            after@ == (Circuit { tick: after.current_tick, ..before@ }),
    {
        assert(after@.kinds =~= before@.kinds);
        assert(after@.states =~= before@.states);
        assert(after@.edges =~= before@.edges);
        assert(after@.dag_edges() =~= before@.dag_edges());
        assert forall|e: Edge| #[trigger] after@.edges.contains(e) implies after@.fits(e) by {
            assert(before@.fits(e));
        }
    }

    /// Moves the circuit on by one tick. First each delay takes over what
    /// its input carried so far. Then every combinational component is
    /// brought up to date, starting from those that drive no other
    /// combinational component and going back from each to its drivers.
    pub fn run_step(&mut self)
        requires
            old(self).wf(),
            old(self)@.tick < u64::MAX,
        ensures
            final(self).wf(),
            old(self)@.steps_to(final(self)@),
    {
        let ghost start = self@;
        let ghost before = *self;
        self.current_tick += 1;
        let version = self.current_tick;
        proof {
            Self::lemma_tick_advanced(&before, self);
        }
        let ghost ticked = self@;
        self.latch_delays();
        let ghost latched = self@;
        proof {
            assert forall|id: usize| #[trigger]
                start.contains(id) && !start.kinds[id as int].combinational() implies start.latches(
                id,
                latched.state(id).values,
            ) by {
                assert(ticked.contains(id) && !ticked.kinds[id as int].combinational());
                assert(ticked.latches(id, latched.state(id).values));
                assert(ticked.state(id) == start.state(id));
                if ticked.driven(id) {
                    let w = choose|w: Edge| #[trigger] ticked.drives(w, id);
                    assert(start.drives(w, id));
                    let e = choose|e: Edge| #[trigger]
                        ticked.last_driver(e, id) && latched.state(id).values
                            == ticked.states[id as int].values.update(
                            e.child_input as int,
                            ticked.signal(e),
                        );
                    assert(start.last_driver(e, id)) by {
                        assert(ticked.drives(e, id));
                        assert(start.drives(e, id));
                        assert forall|other: Edge| #[trigger] start.drives(other, id) implies other
                            == e || other.precedes(e, true) by {
                            assert(ticked.drives(other, id));
                        }
                    }
                    assert(ticked.signal(e) == start.signal(e));
                } else {
                    if start.driven(id) {
                        let w = choose|w: Edge| #[trigger] start.drives(w, id);
                        assert(ticked.drives(w, id));
                    }
                }
            }
            assert forall|id: usize| #[trigger]
                latched.up_to_date(id) && latched.contains(id)
                    && latched.kinds[id as int].combinational() implies latched.evaluated(id) by {
                assert(ticked.contains(id) && ticked.kinds[id as int].combinational());
                assert(latched.state(id) == start.state(id));
                assert(start.states[id as int].version <= start.tick);
            }
        }
        let leaves = self.subgraph_leaves();
        let mut next: usize = 0;
        while next < leaves.len()
            invariant
                next <= leaves.len(),
                self.wf(),
                self@.evaluating(),
                self@.kinds == latched.kinds,
                self@.edges == latched.edges,
                self@.tick == latched.tick,
                self@.states.len() == latched.states.len(),
                version == latched.tick,
                forall|i: int|
                    0 <= i < leaves.len() ==> latched.contains(#[trigger] leaves[i])
                        && latched.kinds[leaves[i] as int].combinational(),
                forall|i: int| 0 <= i < next ==> self@.up_to_date(#[trigger] leaves[i]),
                forall|id: usize|
                    latched.contains(id) && !latched.kinds[id as int].combinational()
                        ==> #[trigger] self@.state(id) == latched.state(id),
            decreases leaves.len() - next,
        {
            let ghost earlier = self@;
            let leaf = leaves[next];
            let ghost trail = seq![leaf];
            let _outputs = self.recursive_eval_and_update(leaf, version, Ghost(trail));
            proof {
                assert forall|i: int| 0 <= i < next + 1 implies self@.up_to_date(
                    #[trigger] leaves[i],
                ) by {
                    if i < next {
                        assert(earlier.up_to_date(leaves[i]));
                        assert(self@.state(leaves[i]) == earlier.state(leaves[i]));
                    }
                }
                assert forall|id: usize|
                    latched.contains(id)
                        && !latched.kinds[id as int].combinational() implies #[trigger] self@.state(
                    id,
                ) == latched.state(id) by {
                    assert(self@.state(id) == earlier.state(id));
                }
            }
            next += 1;
        }
        proof {
            let done = self@;
            assert(done.dag_edges() =~= latched.dag_edges());
            assert forall|l: usize| #[trigger]
                done.up_to_date(l) || !done.contains(l) || !done.kinds[l as int].combinational()
                    || done.has_successor(l) by {
                if done.contains(l) && done.kinds[l as int].combinational() && !done.up_to_date(l) {
                    assert(latched.has_successor(l) || leaves@.contains(l));
                    if leaves@.contains(l) {
                        let i = choose|i: int| 0 <= i < leaves@.len() && leaves@[i] == l;
                        assert(done.up_to_date(leaves[i]));
                    }
                    let y = choose|y: usize| #[trigger] latched.dag_edges().contains((l, y));
                    assert(done.dag_edges().contains((l, y)));
                }
            }
            assert forall|id: usize| #[trigger]
                start.contains(id) && start.kinds[id as int].combinational() implies {
                &&& done.states[id as int].version == done.tick
                &&& done.settled(id)
            } by {
                done.lemma_all_up_to_date(id);
                assert(done.up_to_date(id));
                assert(done.evaluated(id));
            }
            assert forall|id: usize| #[trigger]
                start.contains(id) && !start.kinds[id as int].combinational() implies {
                &&& done.states[id as int].version == start.states[id as int].version
                &&& start.latches(id, done.states[id as int].values)
            } by {
                assert(done.state(id) == latched.state(id));
                assert(ticked.contains(id) && !ticked.kinds[id as int].combinational());
            }
        }
    }
}

} // verus!
