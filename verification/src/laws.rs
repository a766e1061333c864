//! What holds of every circuit, whatever was added to it and however often
//! it was stepped.

use crate::circuit::{Circuit, WireError};
use crate::component::ComponentKind;
use crate::gates::{all_off, all_on, lemma_gate_outputs_len};
use crate::paths::{
    acyclic, is_path, lemma_acyclic_path_distinct, lemma_distinct_below_bound,
    lemma_path_prepend, lemma_path_push, linked, path_between,
};
use crate::wiring::Edge;
use vstd::prelude::*;

verus! {

/// Whether the second circuit comes from the first by one of the things an
/// engine can do: adding a component, asking for a wire, setting one output
/// by hand, or one tick.
pub open spec fn moves_to(from: Circuit, to: Circuit) -> bool {
    ||| from.kinds.len() < usize::MAX && exists|kind: ComponentKind|
        to == #[trigger] from.with_component(kind)
    ||| exists|parent: usize, child: usize, parent_output: usize, child_input: usize|
        to == #[trigger] from.wired(parent, child, parent_output, child_input)
    ||| exists|id: usize, value: bool|
        from.contains(id) && to == #[trigger] from.with_output(id, 0, value)
    ||| from.steps_to(to)
}

/// Whether the list is a history of a circuit: it starts with the empty
/// circuit, and each entry comes from the one before it by one move.
pub open spec fn history(trace: Seq<Circuit>) -> bool {
    &&& trace.len() >= 1
    &&& trace[0] == Circuit::empty()
    &&& forall|i: int| 0 <= i < trace.len() - 1 ==> moves_to(#[trigger] trace[i], trace[i + 1])
}

/// The empty circuit is well formed.
pub proof fn lemma_empty_well_formed()
    ensures
        Circuit::empty().well_formed(),
{
    let c = Circuit::empty();
    assert(c.dag_edges() =~= Set::empty());
    assert forall|p: Seq<usize>| #[trigger] is_path(c.dag_edges(), p) && p.len() >= 2 implies p.first()
        != p.last() by {
        assert(linked(c.dag_edges(), p, 0));
    }
}

/// A well-formed circuit with one more component is well formed.
pub proof fn lemma_with_component_well_formed(c: Circuit, kind: ComponentKind)
    requires
        c.well_formed(),
        c.kinds.len() < usize::MAX,
    ensures
        c.with_component(kind).well_formed(),
{
    let next = c.with_component(kind);
    assert(next.dag_edges() =~= c.dag_edges());
    assert forall|e: Edge| #[trigger] next.edges.contains(e) implies next.fits(e) by {
        assert(c.fits(e));
    }
    assert forall|id: int| 0 <= id < next.kinds.len() implies (#[trigger] next.states[id]).values.len()
        == next.kinds[id].outputs() && next.states[id].version <= next.tick by {
        if id < c.kinds.len() {
            assert(next.states[id] == c.states[id]);
        }
    }
}

/// A well-formed circuit is well formed after a wire was asked for, whether
/// the wire was drawn or refused.
pub proof fn lemma_wired_well_formed(
    c: Circuit,
    parent: usize,
    child: usize,
    parent_output: usize,
    child_input: usize,
)
    requires
        c.well_formed(),
    ensures
        c.wired(parent, child, parent_output, child_input).well_formed(),
{
    if c.wire_outcome(parent, child, parent_output, child_input) is Ok {
        c.lemma_with_edge_well_formed(c.edge(parent, child, parent_output, child_input));
    }
}

/// A well-formed circuit in which one output was set by hand is well
/// formed.
pub proof fn lemma_set_value_well_formed(c: Circuit, id: usize, value: bool)
    requires
        c.well_formed(),
        c.contains(id),
    ensures
        c.with_output(id, 0, value).well_formed(),
{
    let next = c.with_output(id, 0, value);
    assert(next.dag_edges() =~= c.dag_edges());
    assert forall|e: Edge| #[trigger] next.edges.contains(e) implies next.fits(e) by {
        assert(c.fits(e));
    }
    assert forall|x: int| 0 <= x < next.kinds.len() implies (#[trigger] next.states[x]).values.len()
        == next.kinds[x].outputs() && next.states[x].version <= next.tick by {
        assert(c.states[x].values.len() == c.kinds[x].outputs());
    }
}

/// A well-formed circuit is well formed one tick later.
pub proof fn lemma_step_well_formed(c: Circuit, next: Circuit)
    requires
        c.well_formed(),
        c.steps_to(next),
    ensures
        next.well_formed(),
{
    assert(next.dag_edges() =~= c.dag_edges());
    assert forall|e: Edge| #[trigger] next.edges.contains(e) implies next.fits(e) by {
        assert(c.fits(e));
    }
    assert forall|x: int| 0 <= x < next.kinds.len() implies (#[trigger] next.states[x]).values.len()
        == next.kinds[x].outputs() && next.states[x].version <= next.tick by {
        let id = x as usize;
        assert(c.contains(id));
        assert(c.states[x].values.len() == c.kinds[x].outputs());
        if c.kinds[x].combinational() {
            assert(next.settled(id));
            lemma_gate_outputs_len(next.kinds[x], next.inputs(id));
        } else {
            assert(c.latches(id, next.states[x].values));
        }
    }
}

/// Every circuit in a history is well formed. In particular its
/// combinational components form no cycle, and each of its components has as
/// many output values as its kind has output pins.
pub proof fn law_history_well_formed(trace: Seq<Circuit>, at: int)
    requires
        history(trace),
        0 <= at < trace.len(),
    ensures
        trace[at].well_formed(),
        acyclic(trace[at].dag_edges()),
        forall|id: int|
            0 <= id < trace[at].kinds.len() ==> (#[trigger] trace[at].states[id]).values.len()
                == trace[at].kinds[id].outputs(),
    decreases at,
{
    if at == 0 {
        lemma_empty_well_formed();
    } else {
        law_history_well_formed(trace, at - 1);
        let from = trace[at - 1];
        let to = trace[at];
        assert(moves_to(from, to));
        if from.kinds.len() < usize::MAX && exists|kind: ComponentKind|
            to == #[trigger] from.with_component(kind) {
            let kind = choose|kind: ComponentKind| to == #[trigger] from.with_component(kind);
            lemma_with_component_well_formed(from, kind);
        } else if exists|parent: usize, child: usize, parent_output: usize, child_input: usize|
            to == #[trigger] from.wired(parent, child, parent_output, child_input) {
            let (parent, child, parent_output, child_input) = choose|
                parent: usize,
                child: usize,
                parent_output: usize,
                child_input: usize,
            | to == #[trigger] from.wired(parent, child, parent_output, child_input);
            lemma_wired_well_formed(from, parent, child, parent_output, child_input);
        } else if exists|id: usize, value: bool|
            from.contains(id) && to == #[trigger] from.with_output(id, 0, value) {
            let (id, value) = choose|id: usize, value: bool|
                from.contains(id) && to == #[trigger] from.with_output(id, 0, value);
            lemma_set_value_well_formed(from, id, value);
        } else {
            lemma_step_well_formed(from, to);
        }
    }
}

/// Asking for the same wire twice is as good as asking once: the second
/// time the circuit stays as it is, and where the first wire was drawn, the
/// second answer is that the wire is not new.
pub proof fn law_wire_twice(
    c: Circuit,
    parent: usize,
    child: usize,
    parent_output: usize,
    child_input: usize,
)
    requires
        c.well_formed(),
    ensures
        ({
            let once = c.wired(parent, child, parent_output, child_input);
            &&& once.wired(parent, child, parent_output, child_input) == once
            &&& c.wire_outcome(parent, child, parent_output, child_input) is Ok
                ==> once.wire_outcome(parent, child, parent_output, child_input) == Ok::<
                bool,
                WireError,
            >(false)
            &&& c.wire_outcome(parent, child, parent_output, child_input) is Err
                ==> once.wire_outcome(parent, child, parent_output, child_input)
                == c.wire_outcome(parent, child, parent_output, child_input)
        }),
{
    let once = c.wired(parent, child, parent_output, child_input);
    if c.wire_outcome(parent, child, parent_output, child_input) is Ok {
        let e = c.edge(parent, child, parent_output, child_input);
        c.lemma_with_edge_well_formed(e);
        assert(once.edge(parent, child, parent_output, child_input) == e);
        assert(once.edges.contains(e));
        if once.closes_cycle(parent, child) {
            let graph = once.dag_edges();
            assert(graph.contains((parent, child)));
            let p = choose|p: Seq<usize>| #[trigger] path_between(graph, p, child, parent);
            lemma_path_push(graph, p, child);
            assert(is_path(graph, p.push(child)));
        }
        assert(once.with_edge(e).edges =~= once.edges);
    }
}

/// Adding a component and asking for a wire leave the tick as it is; a step
/// adds one to it.
pub proof fn lemma_tick_moves(from: Circuit, to: Circuit)
    requires
        moves_to(from, to),
    ensures
        to.tick == if from.steps_to(to) {
            from.tick + 1
        } else {
            from.tick as int
        },
{
}

/// The number of steps among the first `upto` moves of a history.
pub open spec fn steps_taken(trace: Seq<Circuit>, upto: int) -> int
    decreases upto,
{
    if upto <= 0 {
        0
    } else {
        steps_taken(trace, upto - 1) + if trace[upto - 1].steps_to(trace[upto]) {
            1int
        } else {
            0int
        }
    }
}

/// In a history the tick counts the steps: after `n` steps, with whatever
/// else between them, the tick is `n`.
pub proof fn law_tick_counts_steps(trace: Seq<Circuit>, at: int)
    requires
        history(trace),
        0 <= at < trace.len(),
    ensures
        trace[at].tick == steps_taken(trace, at),
    decreases at,
{
    if at > 0 {
        law_tick_counts_steps(trace, at - 1);
        assert(moves_to(trace[at - 1], trace[at]));
        lemma_tick_moves(trace[at - 1], trace[at]);
    }
}

/// What a component without wires into it reads: every input pin off.
pub proof fn lemma_undriven_inputs(c: Circuit, id: usize)
    requires
        !c.driven(id),
    ensures
        c.inputs(id) == Seq::new(c.kinds[id as int].inputs() as nat, |pin: int| false),
{
    assert forall|pin: usize| !c.input(id, pin) by {
        if c.input(id, pin) {
            let e = choose|e: Edge| #[trigger]
                c.drives(e, id) && e.child_input == pin && c.signal(e);
            assert(c.drives(e, id));
        }
    }
    assert(c.inputs(id) =~= Seq::new(c.kinds[id as int].inputs() as nat, |pin: int| false));
}

/// A `Not` without a wire into it is on after every tick.
pub proof fn law_undriven_not_is_on(c: Circuit, next: Circuit, id: usize)
    requires
        c.steps_to(next),
        c.contains(id),
        c.kinds[id as int] == ComponentKind::Not,
        !c.driven(id),
    ensures
        next.states[id as int].values == seq![true],
        next.output(id, 0),
{
    assert(!next.driven(id)) by {
        if next.driven(id) {
            let e = choose|e: Edge| #[trigger] next.drives(e, id);
            assert(c.drives(e, id));
        }
    }
    lemma_undriven_inputs(next, id);
    assert(next.settled(id));
    assert(all_off(next.inputs(id)));
}

/// An `And` without a wire into it is, after every tick, on if it has no
/// input pin at all, and off if it has one.
pub proof fn law_undriven_and(c: Circuit, next: Circuit, id: usize, pins: usize)
    requires
        c.steps_to(next),
        c.contains(id),
        c.kinds[id as int] == ComponentKind::And(pins),
        !c.driven(id),
    ensures
        next.states[id as int].values == seq![pins == 0],
        next.output(id, 0) == (pins == 0),
{
    assert(!next.driven(id)) by {
        if next.driven(id) {
            let e = choose|e: Edge| #[trigger] next.drives(e, id);
            assert(c.drives(e, id));
        }
    }
    lemma_undriven_inputs(next, id);
    assert(next.settled(id));
    let inputs = next.inputs(id);
    if pins > 0 {
        assert(!inputs[0]);
        assert(!all_on(inputs));
    } else {
        assert(all_on(inputs));
    }
}

/// A `Delay` without a wire into it shows after a tick what it showed
/// before: it stays off unless its output was set by hand.
pub proof fn law_undriven_delay_keeps(c: Circuit, next: Circuit, id: usize)
    requires
        c.steps_to(next),
        c.contains(id),
        c.kinds[id as int] == ComponentKind::Delay,
        !c.driven(id),
    ensures
        next.states[id as int].values == c.states[id as int].values,
        next.output(id, 0) == c.output(id, 0),
{
    assert(c.latches(id, next.states[id as int].values));
}

/// Whether each entry of the list is the circuit one tick after the entry
/// before it.
pub open spec fn ticks_only(trace: Seq<Circuit>) -> bool {
    &&& trace.len() >= 1
    &&& forall|i: int| 0 <= i < trace.len() - 1 ==> (#[trigger] trace[i]).steps_to(trace[i + 1])
}

/// A `Delay` without a wire into it that is off stays off, however many
/// ticks pass.
pub proof fn law_undriven_delay_stays_off(trace: Seq<Circuit>, id: usize, at: int)
    requires
        ticks_only(trace),
        trace[0].contains(id),
        trace[0].kinds[id as int] == ComponentKind::Delay,
        !trace[0].driven(id),
        !trace[0].output(id, 0),
        0 <= at < trace.len(),
    ensures
        trace[at].contains(id),
        trace[at].kinds[id as int] == ComponentKind::Delay,
        !trace[at].driven(id),
        !trace[at].output(id, 0),
    decreases at,
{
    if at > 0 {
        law_undriven_delay_stays_off(trace, id, at - 1);
        let from = trace[at - 1];
        let to = trace[at];
        assert(from.steps_to(to));
        law_undriven_delay_keeps(from, to, id);
        if to.driven(id) {
            let e = choose|e: Edge| #[trigger] to.drives(e, id);
            assert(from.drives(e, id));
        }
    }
}

/// A tick gives each delay one state, whatever else it does.
pub proof fn lemma_delay_is_determined(c: Circuit, a: Circuit, b: Circuit, id: usize)
    requires
        c.steps_to(a),
        c.steps_to(b),
        c.contains(id),
        !c.kinds[id as int].combinational(),
    ensures
        a.state(id) == b.state(id),
{
    let seen_a = a.states[id as int].values;
    let seen_b = b.states[id as int].values;
    assert(c.latches(id, seen_a) && c.latches(id, seen_b));
    if c.driven(id) {
        let first = choose|e: Edge| #[trigger]
            c.last_driver(e, id) && seen_a == c.states[id as int].values.update(
                e.child_input as int,
                c.signal(e),
            );
        let second = choose|e: Edge| #[trigger]
            c.last_driver(e, id) && seen_b == c.states[id as int].values.update(
                e.child_input as int,
                c.signal(e),
            );
        c.lemma_last_driver_unique(first, second, id);
    }
}

/// Whether the component is combinational and in a different state in the
/// two circuits.
pub open spec fn differs(a: Circuit, b: Circuit, id: usize) -> bool {
    a.contains(id) && a.kinds[id as int].combinational() && a.state(id) != b.state(id)
}

/// Where two outcomes of one tick differ in a combinational component, they
/// differ in one that drives it.
proof fn lemma_difference_comes_from_driver(c: Circuit, a: Circuit, b: Circuit, id: usize) -> (from:
    usize)
    requires
        c.well_formed(),
        c.steps_to(a),
        c.steps_to(b),
        differs(a, b, id),
    ensures
        differs(a, b, from),
        c.dag_edges().contains((from, id)),
{
    assert(c.contains(id) && c.kinds[id as int].combinational());
    assert(a.settled(id) && b.settled(id));
    if forall|e: Edge| #[trigger] a.drives(e, id) ==> b.state(e.parent) == a.state(e.parent) {
        a.lemma_inputs_kept(b, id);
        assert(false);
    }
    let e = choose|e: Edge| #[trigger] a.drives(e, id) && b.state(e.parent) != a.state(e.parent);
    assert(c.edges.contains(e));
    assert(c.fits(e));
    if !c.kinds[e.parent as int].combinational() {
        lemma_delay_is_determined(c, a, b, e.parent);
    }
    assert(Circuit::tickless(e));
    e.parent
}

/// Where two outcomes of one tick differ in a combinational component, a
/// path of any length leads to it through the graph.
proof fn lemma_difference_chain(c: Circuit, a: Circuit, b: Circuit, id: usize, len: nat) -> (p: Seq<
    usize,
>)
    requires
        c.well_formed(),
        c.steps_to(a),
        c.steps_to(b),
        differs(a, b, id),
        len >= 1,
    ensures
        is_path(c.dag_edges(), p),
        p.len() == len,
        differs(a, b, p.first()),
    decreases len,
{
    if len == 1 {
        seq![id]
    } else {
        let shorter = lemma_difference_chain(c, a, b, id, (len - 1) as nat);
        let from = lemma_difference_comes_from_driver(c, a, b, shorter.first());
        lemma_path_prepend(c.dag_edges(), from, shorter);
        seq![from] + shorter
    }
}

/// A tick has one outcome: the circuit before it determines the circuit
/// after it.
pub proof fn law_step_is_determined(c: Circuit, a: Circuit, b: Circuit)
    requires
        c.well_formed(),
        c.steps_to(a),
        c.steps_to(b),
    ensures
        a == b,
{
    assert forall|x: int| 0 <= x < a.states.len() implies a.states[x] == b.states[x] by {
        let id = x as usize;
        assert(c.contains(id));
        if c.kinds[x].combinational() {
            if a.state(id) != b.state(id) {
                let p = lemma_difference_chain(c, a, b, id, c.kinds.len() + 1);
                c.lemma_path_within(p);
                lemma_acyclic_path_distinct(c.dag_edges(), p);
                lemma_distinct_below_bound(p, c.kinds.len());
            }
        } else {
            lemma_delay_is_determined(c, a, b, id);
        }
    }
    assert(a.states =~= b.states);
}

} // verus!
