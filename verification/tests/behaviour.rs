use simulation_engine::ComponentKind::{And, Delay, FullAdder, HalfAdder, Not};
use simulation_engine::{ComponentId, SimulationEngine, WireError};

#[test]
fn self_cycle_is_refused_with_cycle_detected() {
    let mut sim = SimulationEngine::new();
    let not = sim.add(Not);
    assert_eq!(sim.wire(not, not, 0, 0), Err(WireError::CycleDetected));
    assert!(sim.incoming_to(not).is_empty());
}

#[test]
fn two_node_cycle_is_refused_with_cycle_detected() {
    let mut sim = SimulationEngine::new();
    let [v, u] = sim.add_array_of(Not);
    assert_eq!(sim.wire0(v, u), Ok(true));
    assert_eq!(sim.wire0(u, v), Err(WireError::CycleDetected));
    assert_eq!(sim.incoming_to(u).len(), 1);
    assert!(sim.incoming_to(v).is_empty());
    sim.run_step();
    assert!(sim.is_on(v));
    assert!(sim.is_off(u));
}

#[test]
fn longer_cycle_is_refused_after_the_order_was_turned_round() {
    let mut sim = SimulationEngine::new();
    let [a, b, c, d] = sim.add_array_of(Not);
    assert_eq!(sim.wire0(d, c), Ok(true));
    assert_eq!(sim.wire0(c, b), Ok(true));
    assert_eq!(sim.wire0(b, a), Ok(true));
    assert_eq!(sim.wire0(a, d), Err(WireError::CycleDetected));
    assert_eq!(sim.wire0(a, c), Err(WireError::CycleDetected));
    assert_eq!(sim.wire0(d, a), Ok(true));
    sim.run_step();
    assert!(sim.is_on(d));
    assert!(sim.is_off(c));
    assert!(sim.is_on(b));
    assert!(sim.is_off(a));
}

#[test]
fn cycle_is_found_among_components_added_after_delays() {
    let mut sim = SimulationEngine::new();
    let [_d1, _d2, _d3, first, second, third] =
        sim.add_array([Delay, Delay, Delay, Not, Not, Not]);
    assert_eq!(sim.wire0(third, second), Ok(true));
    assert_eq!(sim.wire0(second, first), Ok(true));
    assert_eq!(sim.wire0(first, third), Err(WireError::CycleDetected));
    assert_eq!(sim.wire0(first, second), Err(WireError::CycleDetected));
    sim.run_step();
    assert!(sim.is_on(third));
    assert!(sim.is_off(second));
    assert!(sim.is_on(first));
}

#[test]
fn a_delay_breaks_every_cycle() {
    let mut sim = SimulationEngine::new();
    let delay = sim.add(Delay);
    assert_eq!(sim.wire0(delay, delay), Ok(true));
    let [not, other] = sim.add_array([Not, Delay]);
    assert_eq!(sim.wire0(not, other), Ok(true));
    assert_eq!(sim.wire0(other, not), Ok(true));
}

#[test]
fn ring_of_combinational_components_is_not_closed() {
    let mut sim = SimulationEngine::new();
    let ring = sim.add_array_wired_loop([Not, And(1), Not]);
    assert_eq!(ring, Err(WireError::CycleDetected));
    assert_eq!(sim.len(), 3);
    assert_eq!(sim.incoming_to(ComponentId::new(0)).len(), 0);
    assert_eq!(sim.incoming_to(ComponentId::new(1)).len(), 1);
    assert_eq!(sim.incoming_to(ComponentId::new(2)).len(), 1);
    let single = sim.add_array_wired_loop_of::<1>(Not);
    assert_eq!(single, Err(WireError::CycleDetected));
    assert_eq!(sim.len(), 4);
}

#[test]
fn ring_of_one_delay_and_empty_ring() {
    let mut sim = SimulationEngine::new();
    let [delay] = sim.add_array_wired_loop_of(Delay).unwrap();
    assert_eq!(sim.incoming_to(delay).len(), 1);
    sim.set_value(delay, true);
    for _ in 0..5 {
        sim.run_step();
        assert!(sim.is_on(delay));
    }
    let none: [ComponentId; 0] = sim.add_array_wired_loop([]).unwrap();
    assert_eq!(none.len(), 0);
    assert_eq!(sim.len(), 1);
}

#[test]
fn wire_answers_each_error() {
    let mut sim = SimulationEngine::new();
    let [not, and, adder, delay] = sim.add_array([Not, And(2), HalfAdder, Delay]);
    let missing = ComponentId::new(4);
    assert_eq!(sim.wire(missing, not, 0, 0), Err(WireError::UnknownComponent));
    assert_eq!(sim.wire(not, missing, 0, 0), Err(WireError::UnknownComponent));
    assert_eq!(sim.wire(missing, missing, 9, 9), Err(WireError::UnknownComponent));
    assert_eq!(sim.wire(not, and, 1, 0), Err(WireError::PinOutOfRange));
    assert_eq!(sim.wire(adder, and, 2, 0), Err(WireError::PinOutOfRange));
    assert_eq!(sim.wire(adder, and, 2, 5), Err(WireError::PinOutOfRange));
    assert_eq!(sim.wire(not, and, 0, 2), Err(WireError::ArityMismatch));
    assert_eq!(sim.wire(not, delay, 0, 1), Err(WireError::ArityMismatch));
    assert_eq!(sim.wire(not, not, 0, 1), Err(WireError::ArityMismatch));
    assert_eq!(sim.wire(not, not, 0, 0), Err(WireError::CycleDetected));
    assert_eq!(sim.wire(adder, and, 1, 1), Ok(true));
    for id in [not, and, adder, delay] {
        let expected = if id == and { 1 } else { 0 };
        assert_eq!(sim.incoming_to(id).len(), expected);
    }
    let nothing = sim.add(And(0));
    assert_eq!(sim.wire(not, nothing, 0, 0), Err(WireError::ArityMismatch));
}

#[test]
fn same_wire_twice_changes_nothing() {
    let mut once = SimulationEngine::new();
    let [a, b] = once.add_array([Not, Not]);
    assert_eq!(once.wire(a, b, 0, 0), Ok(true));

    let mut twice = SimulationEngine::new();
    let [c, d] = twice.add_array([Not, Not]);
    assert_eq!(twice.wire(c, d, 0, 0), Ok(true));
    assert_eq!(twice.wire(c, d, 0, 0), Ok(false));
    assert_eq!(twice.wire(c, d, 0, 0), Ok(false));

    assert_eq!(once.incoming_to(b), twice.incoming_to(d));
    assert_eq!(twice.incoming_to(d).len(), 1);
    for _ in 0..4 {
        once.run_step();
        twice.run_step();
        assert_eq!(once.is_on(a), twice.is_on(c));
        assert_eq!(once.is_on(b), twice.is_on(d));
    }
}

#[test]
fn several_wires_between_two_components() {
    let mut sim = SimulationEngine::new();
    let [adder, and] = sim.add_array([HalfAdder, And(2)]);
    assert_eq!(sim.wire(adder, and, 1, 1), Ok(true));
    assert_eq!(sim.wire(adder, and, 0, 1), Ok(true));
    assert_eq!(sim.wire(adder, and, 1, 0), Ok(true));
    assert_eq!(sim.wire(adder, and, 0, 0), Ok(true));
    assert_eq!(sim.wire(adder, and, 1, 0), Ok(false));
    let wires = sim.incoming_to(and);
    let pins: Vec<(usize, usize)> = wires.iter().map(|e| (e.parent_output, e.child_input)).collect();
    assert_eq!(pins, vec![(0, 0), (0, 1), (1, 0), (1, 1)]);
    for e in wires {
        assert_eq!(e.parent, adder.index());
        assert_eq!(e.child, and.index());
        assert_eq!(e.parent_kind, HalfAdder);
        assert_eq!(e.child_kind, And(2));
    }
}

#[test]
fn incoming_wires_come_in_the_order_of_the_parents() {
    let mut sim = SimulationEngine::new();
    let [target, third, second, first] = sim.add_array([And(1), Not, Delay, FullAdder]);
    assert_eq!(sim.wire(first, target, 1, 0), Ok(true));
    assert_eq!(sim.wire(third, target, 0, 0), Ok(true));
    assert_eq!(sim.wire(first, target, 0, 0), Ok(true));
    assert_eq!(sim.wire(second, target, 0, 0), Ok(true));
    let order: Vec<(usize, usize)> =
        sim.incoming_to(target).iter().map(|e| (e.parent, e.parent_output)).collect();
    assert_eq!(order, vec![(1, 0), (2, 0), (3, 0), (3, 1)]);
}

#[test]
fn tick_counts_the_steps() {
    let mut sim = SimulationEngine::new();
    assert_eq!(sim.current_tick(), 0);
    let [not, delay] = sim.add_array([Not, Delay]);
    assert_eq!(sim.current_tick(), 0);
    for n in 1..=50u64 {
        sim.run_step();
        assert_eq!(sim.current_tick(), n);
        if n == 10 {
            sim.wire0(not, delay).unwrap();
            sim.add(And(3));
            sim.set_value(delay, true);
            assert_eq!(sim.current_tick(), n);
        }
    }
}

#[test]
fn every_component_has_as_many_values_as_output_pins() {
    let mut sim = SimulationEngine::new();
    let kinds = [Not, And(0), And(1), And(5), HalfAdder, FullAdder, Delay];
    let ids = sim.add_array(kinds);
    let check = |sim: &SimulationEngine| {
        for (id, kind) in ids.iter().zip(kinds.iter()) {
            assert_eq!(sim.get_state(*id).values().len(), kind.arity().1);
            assert_eq!(sim.kind(*id), *kind);
        }
    };
    check(&sim);
    sim.wire(ids[4], ids[6], 1, 0).unwrap();
    sim.wire(ids[0], ids[5], 0, 2).unwrap();
    for id in ids {
        sim.set_value(id, true);
        check(&sim);
    }
    for _ in 0..3 {
        sim.run_step();
        check(&sim);
    }
}

#[test]
fn new_components_are_off_at_version_zero() {
    let mut sim = SimulationEngine::new();
    sim.run_step();
    sim.run_step();
    let ids = sim.add_array([Not, And(2), HalfAdder, FullAdder, Delay]);
    for id in ids {
        assert!(sim.get_state(id).values().iter().all(|on| !on));
        assert_eq!(sim.get_state(id).version(), 0);
    }
}

#[test]
fn versions_follow_the_tick_for_combinational_components_only() {
    let mut sim = SimulationEngine::new();
    let [not, delay] = sim.add_array_wired_loop([Not, Delay]).unwrap();
    for tick in 1..=5u64 {
        sim.run_step();
        assert_eq!(sim.get_state(not).version(), tick);
        assert_eq!(sim.get_state(delay).version(), 0);
    }
}

#[test]
fn undriven_not_is_on_after_every_tick() {
    let mut sim = SimulationEngine::new();
    let not = sim.add(Not);
    assert!(sim.is_off(not));
    for _ in 0..20 {
        sim.run_step();
        assert!(sim.is_on(not));
    }
}

#[test]
fn undriven_and_is_on_only_without_input_pins() {
    let mut sim = SimulationEngine::new();
    let [none, one, two, many] = sim.add_array([And(0), And(1), And(2), And(7)]);
    for _ in 0..10 {
        sim.run_step();
        assert!(sim.is_on(none));
        assert!(sim.is_off(one));
        assert!(sim.is_off(two));
        assert!(sim.is_off(many));
    }
}

#[test]
fn undriven_delay_keeps_what_it_shows() {
    let mut sim = SimulationEngine::new();
    let [plain, seeded] = sim.add_array([Delay, Delay]);
    sim.set_value(seeded, true);
    for _ in 0..20 {
        sim.run_step();
        assert!(sim.is_off(plain));
        assert!(sim.is_on(seeded));
    }
}

#[test]
fn set_value_replaces_the_first_output() {
    let mut sim = SimulationEngine::new();
    let [delay, adder] = sim.add_array([Delay, FullAdder]);
    sim.set_value(delay, true);
    sim.set_value(delay, true);
    assert_eq!(sim.get_state(delay).values(), &[true]);
    sim.set_value(delay, false);
    assert_eq!(sim.get_state(delay).values(), &[false]);
    sim.set_value(adder, true);
    assert_eq!(sim.get_state(adder).values(), &[true, false]);
    assert!(sim.is_on_at(adder, 0));
    assert!(sim.is_off_at(adder, 1));
}

#[test]
fn delay_shows_its_input_one_tick_late() {
    let mut sim = SimulationEngine::new();
    let [not, first, second] = sim.add_array_wired([Not, Delay, Delay]);
    sim.run_step();
    assert_eq!((sim.is_on(not), sim.is_on(first), sim.is_on(second)), (true, false, false));
    sim.run_step();
    assert_eq!((sim.is_on(not), sim.is_on(first), sim.is_on(second)), (true, true, false));
    sim.run_step();
    assert_eq!((sim.is_on(not), sim.is_on(first), sim.is_on(second)), (true, true, true));
}

#[test]
fn not_with_two_drivers_is_a_nor() {
    for (left, right) in [(false, false), (false, true), (true, false), (true, true)] {
        let mut sim = SimulationEngine::new();
        let [a, b, not] = sim.add_array([Delay, Delay, Not]);
        sim.wire0(a, not).unwrap();
        sim.wire0(b, not).unwrap();
        sim.set_value(a, left);
        sim.set_value(b, right);
        sim.run_step();
        assert_eq!(sim.is_on(not), !(left || right));
    }
}

#[test]
fn of_several_wires_into_a_delay_the_last_counts() {
    for (low, high) in [(false, false), (false, true), (true, false), (true, true)] {
        let mut sim = SimulationEngine::new();
        let [a, b, target] = sim.add_array([Delay, Delay, Delay]);
        sim.wire0(b, target).unwrap();
        sim.wire0(a, target).unwrap();
        sim.set_value(a, low);
        sim.set_value(b, high);
        sim.run_step();
        assert_eq!(sim.is_on(target), high);
    }
    let mut sim = SimulationEngine::new();
    let [source, adder, both, sum_only] = sim.add_array([Not, HalfAdder, Delay, Delay]);
    sim.wire(source, adder, 0, 0).unwrap();
    sim.wire(adder, both, 1, 0).unwrap();
    sim.wire(adder, both, 0, 0).unwrap();
    sim.wire(adder, sum_only, 0, 0).unwrap();
    sim.run_step();
    sim.run_step();
    assert!(sim.is_on_at(adder, 0));
    assert!(sim.is_off_at(adder, 1));
    assert!(sim.is_off(both));
    assert!(sim.is_on(sum_only));
}

#[test]
fn fan_out_and_fan_in_are_computed_once_per_tick() {
    let mut sim = SimulationEngine::new();
    let [source, left, right, join, tail] = sim.add_array([Not, Not, Not, And(2), Not]);
    sim.wire0(source, left).unwrap();
    sim.wire0(source, right).unwrap();
    sim.wire(left, join, 0, 0).unwrap();
    sim.wire(right, join, 0, 1).unwrap();
    sim.wire0(join, tail).unwrap();
    for tick in 1..=3u64 {
        sim.run_step();
        assert!(sim.is_on(source));
        assert!(sim.is_off(left));
        assert!(sim.is_off(right));
        assert!(sim.is_off(join));
        assert!(sim.is_on(tail));
        for id in [source, left, right, join, tail] {
            assert_eq!(sim.get_state(id).version(), tick);
        }
    }
}

#[test]
fn long_chain_of_nots_alternates() {
    let mut sim = SimulationEngine::new();
    let chain: [ComponentId; 64] = sim.add_array_wired_of(Not);
    sim.run_step();
    for (place, id) in chain.iter().enumerate() {
        assert_eq!(sim.is_on(*id), place % 2 == 0);
    }
}

#[test]
fn full_adder_counts_delays_that_are_on() {
    for bits in 0..8u8 {
        let mut sim = SimulationEngine::new();
        let [a, b, c, adder] = sim.add_array([Delay, Delay, Delay, FullAdder]);
        sim.wire(a, adder, 0, 0).unwrap();
        sim.wire(b, adder, 0, 1).unwrap();
        sim.wire(c, adder, 0, 2).unwrap();
        sim.set_value(a, bits & 1 != 0);
        sim.set_value(b, bits & 2 != 0);
        sim.set_value(c, bits & 4 != 0);
        sim.run_step();
        let sum = bits.count_ones();
        assert_eq!(sim.is_on_at(adder, 0), sum % 2 == 1);
        assert_eq!(sim.is_on_at(adder, 1), sum >= 2);
    }
}

#[test]
fn components_are_listed_under_their_numbers() {
    let mut sim = SimulationEngine::new();
    assert!(sim.components().is_empty());
    let ids = sim.add_array([Not, Delay, And(3)]);
    assert_eq!(ids.map(|id| id.index()), [0, 1, 2]);
    let all = sim.components();
    assert_eq!(all.len(), 3);
    assert_eq!(all[&0].kind, Not);
    assert_eq!(all[&1].kind, Delay);
    assert_eq!(all[&2].kind, And(3));
    assert_eq!(all[&2].state.values(), &[false]);
    assert!(sim.contains(ids[2]));
    assert!(!sim.contains(ComponentId::new(3)));
}

#[test]
fn outgoing_wires_mirror_the_incoming_ones() {
    let mut sim = SimulationEngine::new();
    let [source, late, first, second] = sim.add_array([HalfAdder, Delay, And(2), Not]);
    sim.wire(source, second, 1, 0).unwrap();
    sim.wire(source, first, 1, 1).unwrap();
    sim.wire(source, late, 0, 0).unwrap();
    sim.wire(source, first, 0, 1).unwrap();
    sim.wire(source, first, 0, 0).unwrap();
    sim.wire(late, first, 0, 0).unwrap();
    let leaving: Vec<(usize, usize, usize)> = sim
        .outgoing_from(source)
        .iter()
        .map(|e| (e.child, e.parent_output, e.child_input))
        .collect();
    assert_eq!(leaving, vec![(1, 0, 0), (2, 0, 0), (2, 0, 1), (2, 1, 1), (3, 1, 0)]);
    assert_eq!(sim.outgoing_from(late).len(), 1);
    assert!(sim.outgoing_from(first).is_empty());
    for id in [late, first, second] {
        for wire in sim.incoming_to(id) {
            assert!(sim.outgoing_from(ComponentId::new(wire.parent)).contains(&wire));
        }
    }
}

#[test]
fn chains_are_wired_from_each_to_the_next() {
    let mut sim = SimulationEngine::new();
    sim.add(Delay);
    let [a, b, c] = sim.add_array_wired([Not, Delay, And(1)]);
    assert_eq!([a.index(), b.index(), c.index()], [1, 2, 3]);
    assert!(sim.incoming_to(a).is_empty());
    assert_eq!(sim.incoming_to(b).iter().map(|e| e.parent).collect::<Vec<_>>(), vec![1]);
    assert_eq!(sim.incoming_to(c).iter().map(|e| e.parent).collect::<Vec<_>>(), vec![2]);
    let [d, e] = sim.add_array_wired_of(Delay);
    assert_eq!(sim.incoming_to(e).iter().map(|w| w.parent).collect::<Vec<_>>(), vec![d.index()]);
    let lone: [ComponentId; 1] = sim.add_array_wired_of(And(0));
    assert!(sim.incoming_to(lone[0]).is_empty());
}
