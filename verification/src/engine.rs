//! The simulation engine: components and wires are added to it, and each
//! step moves the circuit on by one tick.

use crate::circuit::Circuit;
use crate::component::{Component, ComponentId, ComponentIdGenerator, ComponentKind, State};
use crate::dag::{dag_add_node, dag_edges, dag_new, dag_nodes, CombinationalDag};
use crate::paths::{acyclic, is_path, linked};
use crate::table::{table_get, table_insert, table_new};
use crate::wiring::{ordered, Edge};
use rustc_hash::FxHashMap;
use vstd::prelude::*;

mod connect;
mod step;

verus! {

/// A circuit that can be built up and run tick by tick.
pub struct SimulationEngine {
    /// Each component, under its number.
    nodes: FxHashMap<usize, Component>,
    /// Under each component's number, the wires that end at it, in order.
    incoming_edges: FxHashMap<usize, Vec<Edge>>,
    /// Under each component's number, the wires that start at it, in order.
    outgoing_edges: FxHashMap<usize, Vec<Edge>>,
    /// The graph of the combinational components. Its nodes are numbered on
    /// their own, from zero, in the order in which the components came.
    tickless_dag: CombinationalDag,
    /// For each combinational component, its node in the graph.
    dag_slots: FxHashMap<usize, usize>,
    /// For each node of the graph, the component it stands for.
    dag_owners: Vec<usize>,
    id_gen: ComponentIdGenerator,
    current_tick: u64,
}

/// Whether the table keeps, under `key`, a list that holds `e`.
pub open spec fn listed(table: Map<usize, Vec<Edge>>, key: usize, e: Edge) -> bool {
    table.contains_key(key) && table[key]@.contains(e)
}

/// A vector with the values of the slice.
fn copy_of(bits: &[bool]) -> (copy: Vec<bool>)
    ensures
        copy@ == bits@,
{
    let mut copy: Vec<bool> = Vec::new();
    let mut i: usize = 0;
    while i < bits.len()
        invariant
            i <= bits.len(),
            copy@ == bits@.subrange(0, i as int),
        decreases bits.len() - i,
    {
        copy.push(bits[i]);
        assert(copy@ =~= bits@.subrange(0, i + 1));
        i += 1;
    }
    assert(copy@ =~= bits@);
    copy
}

impl View for SimulationEngine {
    type V = Circuit;

    closed spec fn view(&self) -> Circuit {
        Circuit {
            kinds: Seq::new(self.id_gen.0 as nat, |id: int| self.nodes@[id as usize].kind),
            states: Seq::new(self.id_gen.0 as nat, |id: int| self.nodes@[id as usize].state@),
            edges: Set::new(|e: Edge| listed(self.incoming_edges@, e.child, e)),
            tick: self.current_tick,
        }
    }
}

impl SimulationEngine {
    /// The registry holds a component under each number that was handed
    /// out, and under no other.
    closed spec fn registry_inv(&self) -> bool {
        forall|k: usize| #[trigger] self.nodes@.contains_key(k) <==> k < self.id_gen.0
    }

    /// Each list of wires is in order and kept under the component that its
    /// wires share, and the two tables hold the same wires.
    closed spec fn lists_inv(&self) -> bool {
        &&& forall|c: usize| #[trigger]
            self.incoming_edges@.contains_key(c) ==> ordered(self.incoming_edges@[c]@, true)
        &&& forall|c: usize, j: int|
            #![trigger self.incoming_edges@[c]@[j]]
            self.incoming_edges@.contains_key(c) && 0 <= j < self.incoming_edges@[c]@.len()
                ==> self.incoming_edges@[c]@[j].child == c
        &&& forall|p: usize| #[trigger]
            self.outgoing_edges@.contains_key(p) ==> ordered(self.outgoing_edges@[p]@, false)
        &&& forall|p: usize, j: int|
            #![trigger self.outgoing_edges@[p]@[j]]
            self.outgoing_edges@.contains_key(p) && 0 <= j < self.outgoing_edges@[p]@.len()
                ==> self.outgoing_edges@[p]@[j].parent == p
        &&& forall|e: Edge|
            #![trigger listed(self.incoming_edges@, e.child, e)]
            #![trigger listed(self.outgoing_edges@, e.parent, e)]
            listed(self.incoming_edges@, e.child, e) <==> listed(
                self.outgoing_edges@,
                e.parent,
                e,
            )
    }

    /// The graph has one node for each combinational component, and an edge
    /// wherever a wire joins two of them.
    closed spec fn dag_inv(&self) -> bool {
        let count = self.dag_owners@.len();
        &&& dag_nodes(self.tickless_dag) == Seq::new(count, |slot: int| slot as usize)
        &&& forall|slot: int|
            0 <= slot < count ==> {
                let owner = #[trigger] self.dag_owners@[slot];
                &&& owner < self.id_gen.0
                &&& self.nodes@[owner].kind.combinational()
                &&& self.dag_slots@.contains_key(owner)
                &&& self.dag_slots@[owner] == slot
            }
        &&& forall|id: usize|
            id < self.id_gen.0 && (#[trigger] self.nodes@[id]).kind.combinational() ==> {
                &&& self.dag_slots@.contains_key(id)
                &&& self.dag_slots@[id] < count
                &&& self.dag_owners@[self.dag_slots@[id] as int] == id
            }
        &&& forall|a: usize, b: usize| #[trigger]
            dag_edges(self.tickless_dag).contains((a, b)) ==> {
                &&& a < count
                &&& b < count
                &&& self@.dag_edges().contains((self.dag_owners@[a as int], self.dag_owners@[b as int]))
            }
        &&& forall|x: usize, y: usize| #[trigger]
            self@.dag_edges().contains((x, y)) ==> dag_edges(self.tickless_dag).contains(
                (self.dag_slots@[x], self.dag_slots@[y]),
            )
    }

    /// What holds of the engine's own tables whenever it is at rest.
    pub closed spec fn inv(&self) -> bool {
        &&& self.registry_inv()
        &&& self.lists_inv()
        &&& self.dag_inv()
    }

    /// Whether the engine is in order: its tables agree with each other, and
    /// the circuit it holds is well formed.
    pub open spec fn wf(&self) -> bool {
        self.inv() && self@.well_formed()
    }

    /// The graph that the engine keeps beside its tables.
    pub closed spec fn graph(&self) -> CombinationalDag {
        self.tickless_dag
    }

    /// The node of the graph that stands for a combinational component.
    pub closed spec fn node_of(&self, id: usize) -> usize {
        self.dag_slots@[id]
    }

    /// The component that a node of the graph stands for.
    pub closed spec fn owner_of(&self, node: usize) -> usize {
        self.dag_owners@[node as int]
    }

    /// The graph holds one node for each combinational component and none
    /// for a delay, and an edge from one node to another exactly where a
    /// wire leads from the one component to the other.
    pub proof fn lemma_graph_mirrors_circuit(&self)
        requires
            self.wf(),
        ensures
            forall|id: usize| #[trigger]
                self@.contains(id) && self@.kinds[id as int].combinational() ==> {
                    &&& dag_nodes(self.graph()).contains(self.node_of(id))
                    &&& self.owner_of(self.node_of(id)) == id
                },
            forall|node: usize| #[trigger]
                dag_nodes(self.graph()).contains(node) ==> {
                    &&& self@.contains(self.owner_of(node))
                    &&& self@.kinds[self.owner_of(node) as int].combinational()
                    &&& self.node_of(self.owner_of(node)) == node
                },
            forall|a: usize, b: usize|
                #![trigger dag_edges(self.graph()).contains((a, b))]
                dag_nodes(self.graph()).contains(a) && dag_nodes(self.graph()).contains(b) ==> (
                dag_edges(self.graph()).contains((a, b)) <==> self@.dag_edges().contains(
                    (self.owner_of(a), self.owner_of(b)),
                )),
            forall|a: usize, b: usize| #[trigger]
                dag_edges(self.graph()).contains((a, b)) ==> dag_nodes(self.graph()).contains(a)
                    && dag_nodes(self.graph()).contains(b),
    {
        let nodes = dag_nodes(self.graph());
        let count = self.dag_owners@.len();
        assert forall|node: usize| nodes.contains(node) <==> node < count by {
            if nodes.contains(node) {
                let i = choose|i: int| 0 <= i < nodes.len() && nodes[i] == node;
            }
            if node < count {
                assert(nodes[node as int] == node);
            }
        }
        assert forall|id: usize| #[trigger]
            self@.contains(id) && self@.kinds[id as int].combinational() implies {
            &&& nodes.contains(self.node_of(id))
            &&& self.owner_of(self.node_of(id)) == id
        } by {
            assert(self.nodes@[id].kind.combinational());
        }
        assert forall|node: usize| #[trigger] nodes.contains(node) implies {
            &&& self@.contains(self.owner_of(node))
            &&& self@.kinds[self.owner_of(node) as int].combinational()
            &&& self.node_of(self.owner_of(node)) == node
        } by {
            let owner = self.dag_owners@[node as int];
            assert(owner < self.id_gen.0);
        }
        assert forall|a: usize, b: usize|
            #![trigger dag_edges(self.graph()).contains((a, b))]
            nodes.contains(a) && nodes.contains(b) implies (dag_edges(self.graph()).contains(
            (a, b),
        ) <==> self@.dag_edges().contains((self.owner_of(a), self.owner_of(b)))) by {
            let x = self.dag_owners@[a as int];
            let y = self.dag_owners@[b as int];
            assert(x < self.id_gen.0 && y < self.id_gen.0);
            if self@.dag_edges().contains((x, y)) {
                assert(dag_edges(self.tickless_dag).contains(
                    (self.dag_slots@[x], self.dag_slots@[y]),
                ));
            }
        }
    }

    /// The graph of the combinational components never holds a cycle.
    pub proof fn lemma_dag_acyclic(&self)
        requires
            self.wf(),
        ensures
            acyclic(self@.dag_edges()),
    {
    }

    /// Each component has as many output values as its kind has output pins.
    pub proof fn lemma_output_width(&self, id: ComponentId)
        requires
            self.wf(),
            self@.contains(id@),
        ensures
            self@.states[id@ as int].values.len() == self@.kinds[id@ as int].outputs(),
    {
    }

    /// An engine without components, at tick zero.
    pub fn new() -> (engine: SimulationEngine)
        ensures
            engine.wf(),
            engine@ == Circuit::empty(),
    {
        let engine = SimulationEngine {
            nodes: table_new(),
            incoming_edges: table_new(),
            outgoing_edges: table_new(),
            tickless_dag: dag_new(),
            dag_slots: table_new(),
            dag_owners: Vec::new(),
            id_gen: ComponentIdGenerator(0),
            current_tick: 0,
        };
        proof {
            assert(engine@.kinds =~= Seq::empty());
            assert(engine@.states =~= Seq::empty());
            assert(engine@.edges =~= Set::empty());
            assert(engine@.dag_edges() =~= Set::empty());
            assert(dag_nodes(engine.tickless_dag) =~= Seq::new(0, |slot: int| slot as usize));
            assert forall|p: Seq<usize>| #[trigger]
                is_path(engine@.dag_edges(), p) && p.len() >= 2 implies p.first() != p.last() by {
                assert(linked(engine@.dag_edges(), p, 0));
            }
        }
        engine
    }

    /// Where only the states of components have changed, the engine's tables
    /// still agree, and the circuit has the kinds and the wires it had.
    proof fn lemma_states_replaced(before: &SimulationEngine, after: &SimulationEngine)
        requires
            before.inv(),
            after.incoming_edges == before.incoming_edges,
            after.outgoing_edges == before.outgoing_edges,
            after.tickless_dag == before.tickless_dag,
            after.dag_slots == before.dag_slots,
            after.dag_owners == before.dag_owners,
            after.id_gen == before.id_gen,
            forall|k: usize| after.nodes@.contains_key(k) <==> before.nodes@.contains_key(k),
            forall|k: usize| #[trigger]
                before.nodes@.contains_key(k) ==> after.nodes@[k].kind == before.nodes@[k].kind,
        ensures
            after.inv(),
            after@.kinds == before@.kinds,
            after@.edges == before@.edges,
            after@.states.len() == before@.states.len(),
    {
        assert(after@.kinds =~= before@.kinds) by {
            assert forall|id: int| 0 <= id < before.id_gen.0 implies after@.kinds[id]
                == before@.kinds[id] by {
                assert(before.nodes@.contains_key(id as usize));
            }
        }
        assert(after@.edges =~= before@.edges);
        assert(after@.dag_edges() =~= before@.dag_edges());
        assert forall|slot: int| 0 <= slot < after.dag_owners@.len() implies (
        #[trigger] after.nodes@[after.dag_owners@[slot]]).kind.combinational() by {
            assert(before.nodes@.contains_key(before.dag_owners@[slot]));
        }
        assert forall|id: usize|
            id < after.id_gen.0 && (#[trigger] after.nodes@[id]).kind.combinational() implies {
            &&& after.dag_slots@.contains_key(id)
            &&& after.dag_slots@[id] < after.dag_owners@.len()
            &&& after.dag_owners@[after.dag_slots@[id] as int] == id
        } by {
            assert(before.nodes@.contains_key(id));
            assert(before.nodes@[id].kind.combinational());
        }
    }

    /// Adds a component of the given kind, with every output off, and
    /// returns its identifier: the number of components there were.
    pub fn add(&mut self, kind: ComponentKind) -> (id: ComponentId)
        requires
            old(self).wf(),
            old(self)@.kinds.len() < usize::MAX,
        ensures
            final(self).wf(),
            id@ == old(self)@.kinds.len(),
            final(self)@ == old(self)@.with_component(kind),
    {
        let ghost before = *self;
        let component_id = self.id_gen.next_id();
        let number = component_id.index();
        if !kind.is_delay() {
            let slot = self.dag_owners.len();
            assert(!dag_nodes(self.tickless_dag).contains(slot));
            dag_add_node(&mut self.tickless_dag, slot);
            self.dag_owners.push(number);
            table_insert(&mut self.dag_slots, number, slot);
        }
        table_insert(&mut self.nodes, number, Component::new(kind));
        proof {
            let after = *self;
            assert(after@.kinds =~= before@.kinds.push(kind)) by {
                assert forall|i: int| 0 <= i < before.id_gen.0 implies after@.kinds[i]
                    == before@.kinds[i] by {
                    assert(before.nodes@.contains_key(i as usize));
                }
            }
            assert(after@.states =~= before@.states.push(Component::initial_state(kind)));
            assert(after@.edges =~= before@.edges);
            assert(after@.dag_edges() =~= before@.dag_edges());
            assert(after@ == before@.with_component(kind));
            assert forall|e: Edge| #[trigger] after@.edges.contains(e) implies after@.fits(e) by {
                assert(before@.edges.contains(e));
                assert(before@.fits(e));
            }
            assert(after@.well_formed());
            assert(after.lists_inv());
            assert(after.registry_inv());
            let count = after.dag_owners@.len();
            assert(dag_nodes(after.tickless_dag) =~= Seq::new(count, |slot: int| slot as usize));
            assert forall|slot: int| 0 <= slot < count implies {
                let owner = #[trigger] after.dag_owners@[slot];
                &&& owner < after.id_gen.0
                &&& after.nodes@[owner].kind.combinational()
                &&& after.dag_slots@.contains_key(owner)
                &&& after.dag_slots@[owner] == slot
            } by {
                if slot < before.dag_owners@.len() {
                    let owner = before.dag_owners@[slot];
                    assert(owner < before.id_gen.0);
                }
            }
            assert forall|id: usize|
                id < after.id_gen.0 && (#[trigger] after.nodes@[id]).kind.combinational() implies {
                &&& after.dag_slots@.contains_key(id)
                &&& after.dag_slots@[id] < count
                &&& after.dag_owners@[after.dag_slots@[id] as int] == id
            } by {
                if id < before.id_gen.0 {
                    assert(before.nodes@[id].kind.combinational());
                }
            }
            assert forall|a: usize, b: usize| #[trigger]
                dag_edges(after.tickless_dag).contains((a, b)) implies {
                &&& a < count
                &&& b < count
                &&& after@.dag_edges().contains(
                    (after.dag_owners@[a as int], after.dag_owners@[b as int]),
                )
            } by {
                assert(dag_edges(before.tickless_dag).contains((a, b)));
            }
            assert forall|x: usize, y: usize| #[trigger]
                after@.dag_edges().contains((x, y)) implies dag_edges(
                after.tickless_dag,
            ).contains((after.dag_slots@[x], after.dag_slots@[y])) by {
                assert(before@.dag_edges().contains((x, y)));
                let e = choose|e: Edge|
                    #![trigger before@.edges.contains(e)]
                    before@.edges.contains(e) && Circuit::tickless(e) && e.parent == x && e.child
                        == y;
                assert(before@.fits(e));
            }
            assert(after.dag_inv());
        }
        component_id
    }

    /// Puts a new state in the place of a component's state.
    fn set_state(&mut self, id: usize, state: State)
        requires
            old(self).wf(),
            old(self)@.contains(id),
            state@.values.len() == old(self)@.kinds[id as int].outputs(),
            state@.version <= old(self)@.tick,
        ensures
            final(self).wf(),
            final(self)@ == (Circuit {
                states: old(self)@.states.update(id as int, state@),
                ..old(self)@
            }),
            final(self).incoming_edges == old(self).incoming_edges,
            final(self).outgoing_edges == old(self).outgoing_edges,
            final(self).tickless_dag == old(self).tickless_dag,
            final(self).dag_slots == old(self).dag_slots,
            final(self).dag_owners == old(self).dag_owners,
            final(self).id_gen == old(self).id_gen,
            final(self).current_tick == old(self).current_tick,
    {
        let ghost before = *self;
        let kind = table_get(&self.nodes, id).unwrap().kind;
        table_insert(&mut self.nodes, id, Component { kind, state });
        proof {
            Self::lemma_states_replaced(&before, self);
            assert(self@.states =~= before@.states.update(id as int, state@));
            assert(self@.dag_edges() =~= before@.dag_edges());
            assert forall|e: Edge| #[trigger] self@.edges.contains(e) implies self@.fits(e) by {
                assert(before@.fits(e));
            }
        }
    }

    /// Sets one output of a component and leaves its version as it is.
    fn write_output(&mut self, id: usize, pin: usize, value: bool)
        requires
            old(self).wf(),
            old(self)@.contains(id),
            pin < old(self)@.kinds[id as int].outputs(),
        ensures
            final(self).wf(),
            final(self)@ == old(self)@.with_output(id, pin, value),
    {
        let state = &table_get(&self.nodes, id).unwrap().state;
        let version = state.version();
        let old_values = state.values();
        assert(old_values@ == self@.state(id).values);
        assert(old_values.len() == self@.kinds[id as int].outputs());
        let mut values: Vec<bool> = Vec::new();
        let mut i: usize = 0;
        while i < old_values.len()
            invariant
                i <= old_values.len(),
                pin < old_values.len(),
                values.len() == i,
                forall|j: int|
                    0 <= j < i ==> values[j] == if j == pin {
                        value
                    } else {
                        old_values[j]
                    },
            decreases old_values.len() - i,
        {
            values.push(
                if i == pin {
                    value
                } else {
                    old_values[i]
                },
            );
            i += 1;
        }
        assert(values@ =~= old_values@.update(pin as int, value));
        self.set_state(id, State::new(values, version));
    }

    /// Sets the first output of a component, as a way to start a loop of
    /// delays in a chosen state. Everything else stays as it is.
    pub fn set_value(&mut self, id: ComponentId, value: bool)
        requires
            old(self).wf(),
            old(self)@.contains(id@),
        ensures
            final(self).wf(),
            final(self)@ == old(self)@.with_output(id@, 0, value),
    {
        self.write_output(id.index(), 0, value);
    }

    /// The wires that end at a component, in order: by the number of the
    /// parent, then by the parent's output pin, then by the input pin.
    pub fn incoming_to(&self, id: ComponentId) -> (wires: Vec<Edge>)
        requires
            self.wf(),
        ensures
            ordered(wires@, true),
            forall|e: Edge| #[trigger] wires@.contains(e) <==> self@.drives(e, id@),
    {
        self.wires_into(id.index())
    }

    /// The wires that start at a component, in order: by the number of the
    /// child, then by the output pin, then by the child's input pin.
    pub fn outgoing_from(&self, id: ComponentId) -> (wires: Vec<Edge>)
        requires
            self.wf(),
        ensures
            ordered(wires@, false),
            forall|e: Edge| #[trigger] wires@.contains(e) <==> self@.edges.contains(e) && e.parent == id@,
    {
        let mut wires: Vec<Edge> = Vec::new();
        match table_get(&self.outgoing_edges, id.index()) {
            Some(list) => {
                let mut i: usize = 0;
                while i < list.len()
                    invariant
                        i <= list.len(),
                        wires@ == list@.subrange(0, i as int),
                    decreases list.len() - i,
                {
                    wires.push(list[i]);
                    assert(wires@ =~= list@.subrange(0, i + 1));
                    i += 1;
                }
                proof {
                    assert(wires@ =~= list@);
                    assert forall|e: Edge| #[trigger]
                        wires@.contains(e) <==> self@.edges.contains(e) && e.parent == id@ by {
                        if wires@.contains(e) {
                            let i = choose|i: int| 0 <= i < wires@.len() && wires@[i] == e;
                            assert(self.outgoing_edges@[id@]@[i].parent == id@);
                            assert(listed(self.outgoing_edges@, e.parent, e));
                        }
                        if self@.edges.contains(e) && e.parent == id@ {
                            assert(listed(self.incoming_edges@, e.child, e));
                        }
                    }
                }
            },
            None => {
                proof {
                    assert forall|e: Edge| #[trigger]
                        wires@.contains(e) <==> self@.edges.contains(e) && e.parent == id@ by {
                        if self@.edges.contains(e) && e.parent == id@ {
                            assert(listed(self.incoming_edges@, e.child, e));
                            assert(listed(self.outgoing_edges@, e.parent, e));
                        }
                    }
                }
            },
        }
        wires
    }

    fn wires_into(&self, id: usize) -> (wires: Vec<Edge>)
        requires
            self.wf(),
        ensures
            ordered(wires@, true),
            forall|e: Edge| #[trigger] wires@.contains(e) <==> self@.drives(e, id),
    {
        let mut wires: Vec<Edge> = Vec::new();
        match table_get(&self.incoming_edges, id) {
            Some(list) => {
                let mut i: usize = 0;
                while i < list.len()
                    invariant
                        i <= list.len(),
                        wires@ == list@.subrange(0, i as int),
                    decreases list.len() - i,
                {
                    wires.push(list[i]);
                    assert(wires@ =~= list@.subrange(0, i + 1));
                    i += 1;
                }
                proof {
                    assert(wires@ =~= list@);
                    assert forall|e: Edge| #[trigger] wires@.contains(e) <==> self@.drives(
                        e,
                        id,
                    ) by {
                        if wires@.contains(e) {
                            let i = choose|i: int| 0 <= i < wires@.len() && wires@[i] == e;
                            assert(self.incoming_edges@[id]@[i].child == id);
                        }
                    }
                }
            },
            None => {
                proof {
                    assert forall|e: Edge| #[trigger] wires@.contains(e) <==> self@.drives(
                        e,
                        id,
                    ) by {}
                }
            },
        }
        wires
    }

    /// The number of ticks so far.
    pub fn current_tick(&self) -> (tick: u64)
        ensures
            tick == self@.tick,
    {
        self.current_tick
    }

    /// The number of components.
    pub fn len(&self) -> (n: usize)
        ensures
            n == self@.kinds.len(),
    {
        self.id_gen.0
    }

    /// Whether the engine has a component with this identifier.
    pub fn contains(&self, id: ComponentId) -> (b: bool)
        ensures
            b == self@.contains(id@),
    {
        id.index() < self.id_gen.0
    }

    /// The components, each under its number.
    pub fn components(&self) -> (all: &FxHashMap<usize, Component>)
        requires
            self.wf(),
        ensures
            forall|id: usize| #[trigger] all@.contains_key(id) <==> self@.contains(id),
            forall|id: usize| #[trigger]
                self@.contains(id) ==> all@[id].kind == self@.kinds[id as int] && all@[id].state@
                    == self@.states[id as int],
    {
        &self.nodes
    }

    /// The kind of a component.
    pub fn kind(&self, id: ComponentId) -> (kind: ComponentKind)
        requires
            self.wf(),
            self@.contains(id@),
        ensures
            kind == self@.kinds[id@ as int],
    {
        table_get(&self.nodes, id.index()).unwrap().kind
    }

    /// The output state of a component.
    pub fn get_state(&self, id: ComponentId) -> (state: &State)
        requires
            self.wf(),
            self@.contains(id@),
        ensures
            state@ == self@.states[id@ as int],
    {
        &table_get(&self.nodes, id.index()).unwrap().state
    }

    /// Whether the first output of a component is on.
    pub fn is_on(&self, id: ComponentId) -> (on: bool)
        requires
            self.wf(),
            self@.contains(id@),
        ensures
            on == self@.output(id@, 0),
    {
        self.get_state(id).value_at(0)
    }

    /// Whether the first output of a component is off.
    pub fn is_off(&self, id: ComponentId) -> (off: bool)
        requires
            self.wf(),
            self@.contains(id@),
        ensures
            off == !self@.output(id@, 0),
    {
        !self.is_on(id)
    }

    /// Whether the output pin `index` of a component is on.
    pub fn is_on_at(&self, id: ComponentId, index: usize) -> (on: bool)
        requires
            self.wf(),
            self@.contains(id@),
            index < self@.kinds[id@ as int].outputs(),
        ensures
            on == self@.output(id@, index),
    {
        self.get_state(id).value_at(index)
    }

    /// Whether the output pin `index` of a component is off.
    pub fn is_off_at(&self, id: ComponentId, index: usize) -> (off: bool)
        requires
            self.wf(),
            self@.contains(id@),
            index < self@.kinds[id@ as int].outputs(),
        ensures
            off == !self@.output(id@, index),
    {
        !self.is_on_at(id, index)
    }
}

impl Default for SimulationEngine {
    fn default() -> (engine: SimulationEngine)
        ensures
            engine.wf(),
            engine@ == Circuit::empty(),
    {
        SimulationEngine::new()
    }
}

} // verus!
