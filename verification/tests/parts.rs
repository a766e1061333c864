use simulation_engine::gates::evaluate;
use simulation_engine::host::{block_kind, parse_hotbar_number, repeat};
use simulation_engine::wiring::with_edge;
use simulation_engine::ComponentKind::{And, Delay, FullAdder, HalfAdder, Not};
use simulation_engine::{Component, ComponentId, ComponentIdGenerator, Edge, State};

#[test]
fn arities_of_the_kinds() {
    assert_eq!(Not.arity(), (1, 1));
    assert_eq!(And(0).arity(), (0, 1));
    assert_eq!(And(4).arity(), (4, 1));
    assert_eq!(HalfAdder.arity(), (2, 2));
    assert_eq!(FullAdder.arity(), (3, 2));
    assert_eq!(Delay.arity(), (1, 1));
}

#[test]
fn kinds_tell_what_they_are() {
    assert!(Not.is_not() && !Not.is_and() && !Not.is_delay());
    assert!(And(2).is_and() && !And(2).is_not());
    assert!(HalfAdder.is_half_adder() && !HalfAdder.is_full_adder());
    assert!(FullAdder.is_full_adder() && !FullAdder.is_half_adder());
    assert!(Delay.is_delay() && !Delay.is_not());
}

#[test]
fn identifiers_come_in_sequence() {
    let mut generator = ComponentIdGenerator::default();
    assert_eq!(generator.0, 0);
    for expected in 0..10usize {
        let id = generator.next_id();
        assert_eq!(id.index(), expected);
        assert_eq!(id, ComponentId::new(expected));
    }
    assert_eq!(generator.0, 10);
    assert_eq!(ComponentId::max().index(), usize::MAX);
    assert!(ComponentId::new(1) < ComponentId::new(2));
}

#[test]
fn new_component_has_every_output_off() {
    for kind in [Not, And(3), HalfAdder, FullAdder, Delay] {
        let component = Component::new(kind);
        assert_eq!(component.kind, kind);
        assert_eq!(component.state.version(), 0);
        assert_eq!(component.state.values(), vec![false; kind.arity().1].as_slice());
    }
}

#[test]
fn state_keeps_values_and_version() {
    let state = State::new(vec![true, false], 7);
    assert_eq!(state.values(), &[true, false]);
    assert_eq!(state.version(), 7);
    assert!(state.value_at(0));
    assert!(!state.value_at(1));
}

#[test]
fn gates_compute_their_outputs() {
    assert_eq!(evaluate(Not, &vec![false]), vec![true]);
    assert_eq!(evaluate(Not, &vec![true]), vec![false]);
    assert_eq!(evaluate(And(0), &vec![]), vec![true]);
    assert_eq!(evaluate(And(3), &vec![true, true, true]), vec![true]);
    assert_eq!(evaluate(And(3), &vec![true, false, true]), vec![false]);
    assert_eq!(evaluate(HalfAdder, &vec![false, false]), vec![false, false]);
    assert_eq!(evaluate(HalfAdder, &vec![true, false]), vec![true, false]);
    assert_eq!(evaluate(HalfAdder, &vec![false, true]), vec![true, false]);
    assert_eq!(evaluate(HalfAdder, &vec![true, true]), vec![false, true]);
    assert_eq!(evaluate(FullAdder, &vec![false, false, false]), vec![false, false]);
    assert_eq!(evaluate(FullAdder, &vec![false, false, true]), vec![true, false]);
    assert_eq!(evaluate(FullAdder, &vec![true, false, true]), vec![false, true]);
    assert_eq!(evaluate(FullAdder, &vec![true, true, true]), vec![true, true]);
}

fn edge(parent: usize, parent_output: usize, child_input: usize) -> Edge {
    Edge {
        parent,
        child: 9,
        parent_kind: FullAdder,
        child_kind: And(4),
        parent_output,
        child_input,
    }
}

#[test]
fn wires_are_kept_in_order_and_once() {
    let mut list: Vec<Edge> = Vec::new();
    for (parent, output, input) in [(5, 0, 1), (2, 1, 0), (5, 0, 0), (2, 0, 3), (7, 1, 2), (2, 1, 0)] {
        let (next, added) = with_edge(&list, edge(parent, output, input), true);
        assert_eq!(added, !list.contains(&edge(parent, output, input)));
        list = next;
    }
    let keys: Vec<(usize, usize, usize)> =
        list.iter().map(|e| (e.parent, e.parent_output, e.child_input)).collect();
    assert_eq!(keys, vec![(2, 0, 3), (2, 1, 0), (5, 0, 0), (5, 0, 1), (7, 1, 2)]);
    let (same, added) = with_edge(&list, edge(5, 0, 1), true);
    assert!(!added);
    assert_eq!(same, list);
}

#[test]
fn outgoing_wires_are_ordered_by_the_child() {
    let mut list: Vec<Edge> = Vec::new();
    for child in [4usize, 1, 3] {
        let wire = Edge { child, ..edge(0, 0, 0) };
        let (next, added) = with_edge(&list, wire, false);
        assert!(added);
        list = next;
    }
    assert_eq!(list.iter().map(|e| e.child).collect::<Vec<_>>(), vec![1, 3, 4]);
}

#[test]
fn digit_keys_select_hotbar_slots() {
    assert_eq!(parse_hotbar_number(48), Some(0));
    assert_eq!(parse_hotbar_number(49), Some(1));
    assert_eq!(parse_hotbar_number(53), Some(5));
    assert_eq!(parse_hotbar_number(57), Some(9));
    assert_eq!(parse_hotbar_number(47), None);
    assert_eq!(parse_hotbar_number(58), None);
    assert_eq!(parse_hotbar_number(0), None);
    assert_eq!(parse_hotbar_number(u32::MAX), None);
}

#[test]
fn repeat_makes_copies() {
    assert_eq!(repeat(7u8, 3), vec![7, 7, 7]);
    assert_eq!(repeat(true, 0), Vec::<bool>::new());
    assert_eq!(repeat(Not, 2), vec![Not, Not]);
}

#[test]
fn blocks_are_ands_or_nots() {
    assert_eq!(block_kind(true), And(2));
    assert_eq!(block_kind(false), Not);
}
