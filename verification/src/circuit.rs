//! The circuit as a mathematical value: what an engine holds, and how adding
//! a component, drawing a wire and one tick change it.

use crate::component::{Component, ComponentKind, StateView};
use crate::gates::gate_outputs;
use crate::paths::{
    acyclic, is_path, lemma_acyclic_path_distinct, lemma_distinct_below_bound,
    lemma_insert_keeps_acyclic, lemma_path_push, linked, reaches,
};
use crate::wiring::Edge;
use vstd::prelude::*;

verus! {

/// Why a wire was refused.
#[derive(Clone, Copy, Debug, PartialEq, Eq, Structural)]
pub enum WireError {
    /// One of the two components does not exist.
    UnknownComponent,
    /// The parent has no output pin of that number.
    PinOutOfRange,
    /// The child has no input pin of that number.
    ArityMismatch,
    /// The wire would close a cycle of combinational components.
    CycleDetected,
}

/// A circuit: its components by number, the wires between them, and the
/// number of ticks that have passed.
pub struct Circuit {
    /// The kind of each component.
    pub kinds: Seq<ComponentKind>,
    /// The output state of each component.
    pub states: Seq<StateView>,
    /// The wires. No two wires join the same pins.
    pub edges: Set<Edge>,
    /// The number of ticks so far.
    pub tick: u64,
}

impl Circuit {
    /// Whether the circuit has a component of this number.
    pub open spec fn contains(self, id: usize) -> bool {
        id < self.kinds.len()
    }

    /// Whether the wire joins existing pins of existing components and carries
    /// their kinds.
    pub open spec fn fits(self, e: Edge) -> bool {
        &&& self.contains(e.parent)
        &&& self.contains(e.child)
        &&& e.parent_kind == self.kinds[e.parent as int]
        &&& e.child_kind == self.kinds[e.child as int]
        &&& e.parent_output < e.parent_kind.outputs()
        &&& e.child_input < e.child_kind.inputs()
    }

    /// Whether the wire joins two combinational components.
    pub open spec fn tickless(e: Edge) -> bool {
        e.parent_kind.combinational() && e.child_kind.combinational()
    }

    /// The graph of the combinational components: an edge from one to another
    /// wherever a wire leads from the one to the other.
    pub open spec fn dag_edges(self) -> Set<(usize, usize)> {
        Set::new(
            |pair: (usize, usize)|
                exists|e: Edge|
                    #![trigger self.edges.contains(e)]
                    self.edges.contains(e) && Self::tickless(e) && e.parent == pair.0 && e.child
                        == pair.1,
        )
    }

    /// What holds of every circuit that an engine can get into: the
    /// components can be numbered by a `usize`, each
    /// component has as many output values as its kind has output pins and a
    /// version that is no later than the current tick, each wire joins
    /// existing pins, and the combinational components form no cycle.
    pub open spec fn well_formed(self) -> bool {
        &&& self.kinds.len() <= usize::MAX
        &&& self.states.len() == self.kinds.len()
        &&& forall|id: int|
            0 <= id < self.kinds.len() ==> (#[trigger] self.states[id]).values.len()
                == self.kinds[id].outputs()
        &&& forall|id: int|
            0 <= id < self.kinds.len() ==> (#[trigger] self.states[id]).version <= self.tick
        &&& forall|e: Edge| #[trigger] self.edges.contains(e) ==> self.fits(e)
        &&& acyclic(self.dag_edges())
    }

    /// The circuit without components, at tick zero.
    pub open spec fn empty() -> Circuit {
        Circuit { kinds: Seq::empty(), states: Seq::empty(), edges: Set::empty(), tick: 0 }
    }

    /// The circuit with one more component, whose outputs are all off.
    pub open spec fn with_component(self, kind: ComponentKind) -> Circuit {
        Circuit {
            kinds: self.kinds.push(kind),
            states: self.states.push(Component::initial_state(kind)),
            ..self
        }
    }

    /// The circuit with more components, in the order of the list, each with
    /// every output off.
    pub open spec fn with_components(self, kinds: Seq<ComponentKind>) -> Circuit {
        Circuit {
            kinds: self.kinds + kinds,
            states: self.states + kinds.map_values(|kind: ComponentKind| Component::initial_state(kind)),
            ..self
        }
    }

    /// The circuit in which, of the components from number `first` on, each
    /// of the first `links` is joined to the next one: a wire leads from its
    /// first output pin to the first input pin of the next.
    pub open spec fn with_chain(self, first: usize, links: nat) -> Circuit
        decreases links,
    {
        if links == 0 {
            self
        } else {
            let before = self.with_chain(first, (links - 1) as nat);
            before.with_edge(
                before.edge((first + links - 1) as usize, (first + links) as usize, 0, 0),
            )
        }
    }

    /// Adding components one by one is adding them all.
    pub proof fn lemma_with_components_push(self, kinds: Seq<ComponentKind>, kind: ComponentKind)
        ensures
            self.with_components(kinds.push(kind)) == self.with_components(kinds).with_component(
                kind,
            ),
            self.with_components(Seq::empty()) == self,
    {
        let all = self.with_components(kinds.push(kind));
        let stepwise = self.with_components(kinds).with_component(kind);
        assert(all.kinds =~= stepwise.kinds);
        assert(all.states =~= stepwise.states);
        let none = self.with_components(Seq::empty());
        assert(none.kinds =~= self.kinds);
        assert(none.states =~= self.states);
    }

    /// A chain of wires leaves the components, their states and the tick as
    /// they are.
    pub proof fn lemma_with_chain_keeps(self, first: usize, links: nat)
        ensures
            self.with_chain(first, links).kinds == self.kinds,
            self.with_chain(first, links).states == self.states,
            self.with_chain(first, links).tick == self.tick,
        decreases links,
    {
        if links > 0 {
            self.lemma_with_chain_keeps(first, (links - 1) as nat);
        }
    }

    /// The wire between the given pins of the given components.
    pub open spec fn edge(
        self,
        parent: usize,
        child: usize,
        parent_output: usize,
        child_input: usize,
    ) -> Edge {
        Edge {
            parent,
            child,
            parent_kind: self.kinds[parent as int],
            child_kind: self.kinds[child as int],
            parent_output,
            child_input,
        }
    }

    /// The circuit with one more wire.
    pub open spec fn with_edge(self, e: Edge) -> Circuit {
        Circuit { edges: self.edges.insert(e), ..self }
    }

    /// Whether a wire from `parent` to `child` would close a cycle of
    /// combinational components: both are combinational, and `child` reaches
    /// `parent` already. A combinational component reaches itself.
    pub open spec fn closes_cycle(self, parent: usize, child: usize) -> bool {
        &&& self.kinds[parent as int].combinational()
        &&& self.kinds[child as int].combinational()
        &&& reaches(self.dag_edges(), child, parent)
    }

    /// What drawing a wire answers: why it is refused, or else whether the
    /// circuit did not hold the wire yet.
    pub open spec fn wire_outcome(
        self,
        parent: usize,
        child: usize,
        parent_output: usize,
        child_input: usize,
    ) -> Result<bool, WireError> {
        if !self.contains(parent) || !self.contains(child) {
            Err(WireError::UnknownComponent)
        } else if parent_output >= self.kinds[parent as int].outputs() {
            Err(WireError::PinOutOfRange)
        } else if child_input >= self.kinds[child as int].inputs() {
            Err(WireError::ArityMismatch)
        } else if self.closes_cycle(parent, child) {
            Err(WireError::CycleDetected)
        } else {
            Ok(!self.edges.contains(self.edge(parent, child, parent_output, child_input)))
        }
    }

    /// The circuit after a wire was asked for: with the wire, unless it was
    /// refused.
    pub open spec fn wired(
        self,
        parent: usize,
        child: usize,
        parent_output: usize,
        child_input: usize,
    ) -> Circuit {
        if self.wire_outcome(parent, child, parent_output, child_input) is Ok {
            self.with_edge(self.edge(parent, child, parent_output, child_input))
        } else {
            self
        }
    }

    /// Whether the component's output pin is on.
    pub open spec fn output(self, id: usize, pin: usize) -> bool {
        self.states[id as int].values[pin as int]
    }

    /// What the wire carries: the value of the output pin it starts at.
    pub open spec fn signal(self, e: Edge) -> bool {
        self.output(e.parent, e.parent_output)
    }

    /// Whether the wire ends at the component.
    pub open spec fn drives(self, e: Edge, id: usize) -> bool {
        self.edges.contains(e) && e.child == id
    }

    /// Whether any wire ends at the component.
    pub open spec fn driven(self, id: usize) -> bool {
        exists|e: Edge| #[trigger] self.drives(e, id)
    }

    /// What an input pin reads: on exactly when one of the wires that end at
    /// it carries on. A pin without a wire reads off.
    pub open spec fn input(self, id: usize, pin: usize) -> bool {
        exists|e: Edge| #[trigger] self.drives(e, id) && e.child_input == pin && self.signal(e)
    }

    /// What the input pins of the component read.
    pub open spec fn inputs(self, id: usize) -> Seq<bool> {
        Seq::new(self.kinds[id as int].inputs() as nat, |pin: int| self.input(id, pin as usize))
    }

    /// Whether the outputs of the component are what its kind makes of its
    /// inputs.
    pub open spec fn settled(self, id: usize) -> bool {
        self.states[id as int].values == gate_outputs(self.kinds[id as int], self.inputs(id))
    }

    /// Whether the wire is the last of those that end at the component, in
    /// the order of the parents' numbers and then of the pins.
    pub open spec fn last_driver(self, e: Edge, id: usize) -> bool {
        &&& self.drives(e, id)
        &&& forall|other: Edge| #[trigger]
            self.drives(other, id) ==> other == e || other.precedes(e, true)
    }

    /// Whether `values` is what a delay shows after a tick: where wires end
    /// at it, the input pin has taken what the last of them carried before
    /// the tick; where none does, the delay keeps what it showed.
    pub open spec fn latches(self, id: usize, values: Seq<bool>) -> bool {
        if self.driven(id) {
            exists|e: Edge| #[trigger]
                self.last_driver(e, id) && values == self.states[id as int].values.update(
                    e.child_input as int,
                    self.signal(e),
                )
        } else {
            values == self.states[id as int].values
        }
    }

    /// Whether `next` is the circuit one tick after this one. The components
    /// and the wires are the same and the tick is one more. Each delay shows
    /// what its input carried before the tick, and keeps its version. Each
    /// combinational component has the new tick as its version, and its
    /// outputs are what its kind makes of its inputs as they are after the
    /// tick.
    pub open spec fn steps_to(self, next: Circuit) -> bool {
        &&& next.kinds == self.kinds
        &&& next.edges == self.edges
        &&& next.tick == self.tick + 1
        &&& next.states.len() == self.states.len()
        &&& forall|id: usize| #[trigger]
            self.contains(id) && !self.kinds[id as int].combinational() ==> {
                &&& next.states[id as int].version == self.states[id as int].version
                &&& self.latches(id, next.states[id as int].values)
            }
        &&& forall|id: usize| #[trigger]
            self.contains(id) && self.kinds[id as int].combinational() ==> {
                &&& next.states[id as int].version == next.tick
                &&& next.settled(id)
            }
    }

    /// A new wire gives the graph of the combinational components an edge
    /// exactly when it joins two of them.
    pub proof fn lemma_with_edge_dag(self, e: Edge)
        ensures
            self.with_edge(e).dag_edges() == if Self::tickless(e) {
                self.dag_edges().insert((e.parent, e.child))
            } else {
                self.dag_edges()
            },
    {
        let next = self.with_edge(e);
        let wanted = if Self::tickless(e) {
            self.dag_edges().insert((e.parent, e.child))
        } else {
            self.dag_edges()
        };
        assert forall|pair: (usize, usize)| next.dag_edges().contains(pair) implies wanted.contains(
            pair,
        ) by {
            let w = choose|w: Edge|
                #![trigger next.edges.contains(w)]
                next.edges.contains(w) && Self::tickless(w) && w.parent == pair.0 && w.child
                    == pair.1;
            if w != e {
                assert(self.edges.contains(w));
            }
        }
        assert forall|pair: (usize, usize)| wanted.contains(pair) implies next.dag_edges().contains(
            pair,
        ) by {
            if self.dag_edges().contains(pair) {
                let w = choose|w: Edge|
                    #![trigger self.edges.contains(w)]
                    self.edges.contains(w) && Self::tickless(w) && w.parent == pair.0 && w.child
                        == pair.1;
                assert(next.edges.contains(w));
            } else {
                assert(next.edges.contains(e));
            }
        }
        assert(next.dag_edges() =~= wanted);
    }

    /// Every edge of the graph of the combinational components joins two
    /// combinational components of the circuit.
    pub proof fn lemma_dag_edge_ends(self, x: usize, y: usize)
        requires
            self.well_formed(),
            self.dag_edges().contains((x, y)),
        ensures
            self.contains(x),
            self.contains(y),
            self.kinds[x as int].combinational(),
            self.kinds[y as int].combinational(),
    {
        let w = choose|w: Edge|
            #![trigger self.edges.contains(w)]
            self.edges.contains(w) && Self::tickless(w) && w.parent == x && w.child == y;
        assert(self.fits(w));
    }

    /// A well-formed circuit that gains a wire which fits and closes no cycle
    /// is well formed.
    pub proof fn lemma_with_edge_well_formed(self, e: Edge)
        requires
            self.well_formed(),
            self.fits(e),
            !self.closes_cycle(e.parent, e.child),
        ensures
            self.with_edge(e).well_formed(),
    {
        let next = self.with_edge(e);
        self.lemma_with_edge_dag(e);
        if Self::tickless(e) {
            lemma_insert_keeps_acyclic(self.dag_edges(), e.parent, e.child);
        }
        assert forall|w: Edge| #[trigger] next.edges.contains(w) implies next.fits(w) by {
            if w != e {
                assert(self.edges.contains(w));
                assert(self.fits(w));
            }
        }
    }

    /// The output state of a component.
    pub open spec fn state(self, id: usize) -> StateView {
        self.states[id as int]
    }

    /// Whether the component's outputs were computed at the current tick.
    pub open spec fn up_to_date(self, id: usize) -> bool {
        self.states[id as int].version == self.tick
    }

    /// Whether the component's outputs are final for the current tick: they
    /// are what its kind makes of its inputs, and each combinational
    /// component that drives it is up to date as well.
    pub open spec fn evaluated(self, id: usize) -> bool {
        &&& self.settled(id)
        &&& forall|e: Edge| #[trigger]
            self.drives(e, id) && e.parent_kind.combinational() ==> self.up_to_date(e.parent)
    }

    /// What holds in the middle of a tick, while the combinational components
    /// are brought up to date one by one: whichever of them is up to date has
    /// its final outputs.
    pub open spec fn evaluating(self) -> bool {
        forall|id: usize| #[trigger]
            self.up_to_date(id) && self.contains(id) && self.kinds[id as int].combinational()
                ==> self.evaluated(id)
    }

    /// The circuit in which one component has a new state.
    pub open spec fn with_state(self, id: usize, state: StateView) -> Circuit {
        Circuit { states: self.states.update(id as int, state), ..self }
    }

    /// The circuit in which one output pin of one component has a new value.
    pub open spec fn with_output(self, id: usize, pin: usize, value: bool) -> Circuit {
        self.with_state(
            id,
            StateView { values: self.state(id).values.update(pin as int, value), ..self.state(id) },
        )
    }

    /// No wire leads from a combinational component to itself.
    pub proof fn lemma_no_self_wire(self, e: Edge)
        requires
            self.well_formed(),
            self.edges.contains(e),
            Self::tickless(e),
        ensures
            e.parent != e.child,
    {
        if e.parent == e.child {
            let p = seq![e.parent, e.child];
            assert(self.dag_edges().contains((e.parent, e.child)));
            assert forall|i: int| 0 <= i < p.len() - 1 implies #[trigger] linked(
                self.dag_edges(),
                p,
                i,
            ) by {}
            assert(is_path(self.dag_edges(), p));
        }
    }

    /// What a component reads does not change where the states of the
    /// components that drive it do not change.
    pub proof fn lemma_inputs_kept(self, other: Circuit, id: usize)
        requires
            other.kinds == self.kinds,
            other.edges == self.edges,
            forall|e: Edge| #[trigger]
                self.drives(e, id) ==> other.state(e.parent) == self.state(e.parent),
        ensures
            other.inputs(id) == self.inputs(id),
    {
        assert forall|pin: usize| other.input(id, pin) == self.input(id, pin) by {
            if self.input(id, pin) {
                let e = choose|e: Edge| #[trigger]
                    self.drives(e, id) && e.child_input == pin && self.signal(e);
                assert(other.state(e.parent) == self.state(e.parent));
                assert(other.drives(e, id) && other.signal(e));
            }
            if other.input(id, pin) {
                let e = choose|e: Edge| #[trigger]
                    other.drives(e, id) && e.child_input == pin && other.signal(e);
                assert(self.drives(e, id));
                assert(other.state(e.parent) == self.state(e.parent));
                assert(self.signal(e));
            }
        }
        assert(other.inputs(id) =~= self.inputs(id));
    }

    /// In the middle of a tick, a combinational component whose drivers are
    /// done can be given its outputs: the circuit is then still in the
    /// middle of that tick, with one more component up to date.
    pub proof fn lemma_bring_up_to_date(self, id: usize, values: Seq<bool>)
        requires
            self.well_formed(),
            self.evaluating(),
            self.contains(id),
            self.kinds[id as int].combinational(),
            !self.up_to_date(id),
            values == gate_outputs(self.kinds[id as int], self.inputs(id)),
            forall|e: Edge| #[trigger]
                self.drives(e, id) && e.parent_kind.combinational() ==> self.up_to_date(e.parent),
        ensures
            self.with_state(id, StateView { values, version: self.tick }).evaluating(),
            self.with_state(id, StateView { values, version: self.tick }).up_to_date(id),
    {
        let next = self.with_state(id, StateView { values, version: self.tick });
        assert forall|x: usize| #[trigger]
            next.up_to_date(x) && next.contains(x)
                && next.kinds[x as int].combinational() implies next.evaluated(x) by {
            assert forall|e: Edge| #[trigger] self.drives(e, x) implies next.state(e.parent)
                == self.state(e.parent) by {
                assert(self.fits(e));
                if e.parent == id {
                    if x == id {
                        self.lemma_no_self_wire(e);
                    } else {
                        assert(self.up_to_date(x));
                        assert(self.evaluated(x));
                    }
                }
            }
            self.lemma_inputs_kept(next, x);
            if x != id {
                assert(self.up_to_date(x));
                assert(self.evaluated(x));
            }
            assert forall|e: Edge| #[trigger]
                next.drives(e, x) && e.parent_kind.combinational() implies next.up_to_date(
                e.parent,
            ) by {
                assert(self.drives(e, x));
                assert(self.fits(e));
            }
        }
    }

    /// Whether some wire leads from the component to a combinational one,
    /// the component being combinational itself.
    pub open spec fn has_successor(self, id: usize) -> bool {
        exists|next: usize| #[trigger] self.dag_edges().contains((id, next))
    }

    /// Every node on a path through the graph of the combinational
    /// components is a combinational component of the circuit, if the first
    /// is.
    pub proof fn lemma_path_within(self, p: Seq<usize>)
        requires
            self.well_formed(),
            is_path(self.dag_edges(), p),
            self.contains(p.first()),
        ensures
            forall|i: int| 0 <= i < p.len() ==> p[i] < self.kinds.len(),
    {
        assert forall|i: int| 0 <= i < p.len() implies p[i] < self.kinds.len() by {
            if i > 0 {
                assert(linked(self.dag_edges(), p, i - 1));
                self.lemma_dag_edge_ends(p[i - 1], p[i]);
            }
        }
    }

    /// In the middle of a tick, from a combinational component that is not
    /// up to date, a path of any length leads through such components,
    /// provided each of them has a successor.
    proof fn lemma_stale_chain(self, x: usize, len: nat) -> (p: Seq<usize>)
        requires
            self.well_formed(),
            self.evaluating(),
            self.contains(x),
            self.kinds[x as int].combinational(),
            !self.up_to_date(x),
            forall|l: usize| #[trigger]
                self.up_to_date(l) || !self.contains(l) || !self.kinds[l as int].combinational()
                    || self.has_successor(l),
            len >= 1,
        ensures
            is_path(self.dag_edges(), p),
            p.len() == len,
            p.first() == x,
            self.contains(p.last()),
            self.kinds[p.last() as int].combinational(),
            !self.up_to_date(p.last()),
        decreases len,
    {
        if len == 1 {
            seq![x]
        } else {
            let shorter = self.lemma_stale_chain(x, (len - 1) as nat);
            let z = shorter.last();
            assert(self.up_to_date(z) || self.has_successor(z));
            let y = choose|y: usize| #[trigger] self.dag_edges().contains((z, y));
            self.lemma_dag_edge_ends(z, y);
            let w = choose|w: Edge|
                #![trigger self.edges.contains(w)]
                self.edges.contains(w) && Self::tickless(w) && w.parent == z && w.child == y;
            if self.up_to_date(y) {
                assert(self.evaluated(y));
                assert(self.drives(w, y));
            }
            lemma_path_push(self.dag_edges(), shorter, y);
            shorter.push(y)
        }
    }

    /// In the middle of a tick, once every combinational component without
    /// a successor is up to date, every combinational component is.
    pub proof fn lemma_all_up_to_date(self, x: usize)
        requires
            self.well_formed(),
            self.evaluating(),
            self.contains(x),
            self.kinds[x as int].combinational(),
            forall|l: usize| #[trigger]
                self.up_to_date(l) || !self.contains(l) || !self.kinds[l as int].combinational()
                    || self.has_successor(l),
        ensures
            self.up_to_date(x),
    {
        if !self.up_to_date(x) {
            let p = self.lemma_stale_chain(x, self.kinds.len() + 1);
            self.lemma_path_within(p);
            lemma_acyclic_path_distinct(self.dag_edges(), p);
            lemma_distinct_below_bound(p, self.kinds.len());
        }
    }

    /// Whether the triple of a delay, one of its input pins and a value is
    /// what some wire that ends at the delay carries to that pin.
    pub open spec fn samples(self, edit: (usize, usize, bool)) -> bool {
        &&& self.contains(edit.0)
        &&& !self.kinds[edit.0 as int].combinational()
        &&& exists|e: Edge| #[trigger]
            self.drives(e, edit.0) && edit.1 == e.child_input && edit.2 == self.signal(e)
    }

    /// Whether entry `at` of the list is the last one for the delay, and is
    /// what the last of the wires into the delay carries.
    pub open spec fn settles(self, edits: Seq<(usize, usize, bool)>, at: int, id: usize) -> bool {
        &&& 0 <= at < edits.len()
        &&& edits[at].0 == id
        &&& exists|e: Edge| #[trigger]
            self.last_driver(e, id) && edits[at].1 == e.child_input && edits[at].2
                == self.signal(e)
        &&& forall|later: int| at < later < edits.len() ==> (#[trigger] edits[later]).0 != id
    }

    /// At most one wire is the last of those that end at a component.
    pub proof fn lemma_last_driver_unique(self, a: Edge, b: Edge, id: usize)
        requires
            self.last_driver(a, id),
            self.last_driver(b, id),
        ensures
            a == b,
    {
        assert(self.drives(a, id) && self.drives(b, id));
    }
}

} // verus!
