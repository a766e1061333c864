use simulation_engine::ComponentKind::{And, Delay, FullAdder, HalfAdder, Not};
use simulation_engine::{ComponentId, ComponentKind, SimulationEngine};

#[test]
#[should_panic]
fn panic_on_trivial_self_cycle() {
    let mut sim = SimulationEngine::default();
    let not = sim.add(Not);
    sim.wire0(not, not).expect("detected cycle");
}

#[test]
#[should_panic]
fn panic_on_short_cycle() {
    let mut sim = SimulationEngine::default();
    let [v, u] = sim.add_array_of(Not);
    sim.wire0(v, u).expect("detected cycle");
    sim.wire0(u, v).expect("detected cycle");
}

#[test]
fn test_disconnected_components() {
    let mut sim = SimulationEngine::default();
    let components = sim.add_array([Not, Not, Delay, Delay]);
    for i in 0..100 {
        sim.run_step();
        assert!(sim.is_on(components[0]), "{i}");
        assert!(sim.is_on(components[1]), "{i}");
        assert!(sim.is_off(components[2]), "{i}");
        assert!(sim.is_off(components[3]), "{i}");
    }
}

#[test]
fn test_flipping_loop_with_two_delays() {
    let mut sim = SimulationEngine::default();
    let [first, second] = sim.add_array_wired_loop([Delay, Delay]).unwrap();

    sim.set_value(first, true);

    for i in 0..100 {
        assert_eq!(i % 2 == 0, sim.is_on(first), "{i}");
        assert_eq!(i % 2 == 1, sim.is_on(second), "{i}");
        sim.run_step();
    }
}

#[test]
fn test_flipping_loop_with_not_and_delay() {
    let mut sim = SimulationEngine::default();
    let [not, delay] = sim.add_array_wired_loop([Not, Delay]).unwrap();

    for i in 0..100 {
        sim.run_step();
        assert_eq!(i % 2 == 0, sim.is_on(not), "{i}");
        assert_eq!(i % 2 == 1, sim.is_on(delay), "{i}");
    }
}

#[test]
fn test_loop_with_three_delays() {
    let mut sim = SimulationEngine::default();
    let [delay_1, delay_2, delay_3] = sim.add_array_wired_loop_of(Delay).unwrap();
    sim.set_value(delay_1, true);

    for i in 0..100 {
        sim.run_step();
        assert!(sim.is_off(delay_1), "{i}");
        assert!(sim.is_on(delay_2), "{i}");
        assert!(sim.is_off(delay_3), "{i}");

        sim.run_step();
        assert!(sim.is_off(delay_1), "{i}");
        assert!(sim.is_off(delay_2), "{i}");
        assert!(sim.is_on(delay_3), "{i}");

        sim.run_step();
        assert!(sim.is_on(delay_1), "{i}");
        assert!(sim.is_off(delay_2), "{i}");
        assert!(sim.is_off(delay_3), "{i}");
    }
}

#[test]
fn test_loop_circuit_with_consecutive_nots_and_delays() {
    let mut sim = SimulationEngine::default();
    let [not_1, not_2, not_3, delay_1, delay_2] =
        sim.add_array_wired_loop([Not, Not, Not, Delay, Delay]).unwrap();

    for i in 0..100 {
        sim.run_step();
        assert!(sim.is_on(not_1), "{i}");
        assert!(sim.is_off(not_2), "{i}");
        assert!(sim.is_on(not_3), "{i}");
        assert!(sim.is_off(delay_1), "{i}");
        assert!(sim.is_off(delay_2), "{i}");

        sim.run_step();
        assert!(sim.is_on(not_1), "{i}");
        assert!(sim.is_off(not_2), "{i}");
        assert!(sim.is_on(not_3), "{i}");
        assert!(sim.is_on(delay_1), "{i}");
        assert!(sim.is_off(delay_2), "{i}");

        sim.run_step();
        assert!(sim.is_off(not_1), "{i}");
        assert!(sim.is_on(not_2), "{i}");
        assert!(sim.is_off(not_3), "{i}");
        assert!(sim.is_on(delay_1), "{i}");
        assert!(sim.is_on(delay_2), "{i}");

        sim.run_step();
        assert!(sim.is_off(not_1), "{i}");
        assert!(sim.is_on(not_2), "{i}");
        assert!(sim.is_off(not_3), "{i}");
        assert!(sim.is_off(delay_1), "{i}");
        assert!(sim.is_on(delay_2), "{i}");
    }
}

#[test]
fn test_loop_circuit_with_consecutive_nots_and_delays_stable() {
    let mut sim = SimulationEngine::default();
    let [not_1, not_2, not_3, not_4, delay_1, delay_2] =
        sim.add_array_wired_loop([Not, Not, Not, Not, Delay, Delay]).unwrap();

    for i in 0..100 {
        sim.run_step();
        assert!(sim.is_on(not_1), "{i}");
        assert!(sim.is_off(not_2), "{i}");
        assert!(sim.is_on(not_3), "{i}");
        assert!(sim.is_off(not_4), "{i}");
        assert!(sim.is_off(delay_1), "{i}");
        assert!(sim.is_off(delay_2), "{i}");
    }
}

fn engine_with_not_and(kind: ComponentKind) -> (SimulationEngine, ComponentId, ComponentId) {
    let mut sim = SimulationEngine::default();
    let [not, other] = sim.add_array([Not, kind]);
    (sim, not, other)
}

#[test]
fn test_and() {
    let new_sim = || engine_with_not_and(And(2));

    let (mut sim, _, and) = new_sim();
    sim.run_step();
    assert!(sim.is_off(and));

    let (mut sim, not, and) = new_sim();
    sim.wire(not, and, 0, 0).unwrap();
    sim.run_step();
    assert!(sim.is_off(and));

    let (mut sim, not, and) = new_sim();
    sim.wire(not, and, 0, 1).unwrap();
    sim.run_step();
    assert!(sim.is_off(and));

    let (mut sim, not, and) = new_sim();
    sim.wire(not, and, 0, 0).unwrap();
    sim.wire(not, and, 0, 1).unwrap();
    sim.run_step();
    assert!(sim.is_on(and));
}

#[test]
fn test_half_adder() {
    let new_sim = || engine_with_not_and(HalfAdder);

    let (mut sim, _, half_adder) = new_sim();
    sim.run_step();
    assert!(sim.is_off_at(half_adder, 0));
    assert!(sim.is_off_at(half_adder, 1));

    let (mut sim, not, half_adder) = new_sim();
    sim.wire(not, half_adder, 0, 0).unwrap();
    sim.run_step();
    assert!(sim.is_on_at(half_adder, 0));
    assert!(sim.is_off_at(half_adder, 1));

    let (mut sim, not, half_adder) = new_sim();
    sim.wire(not, half_adder, 0, 1).unwrap();
    sim.run_step();
    assert!(sim.is_on_at(half_adder, 0));
    assert!(sim.is_off_at(half_adder, 1));

    let (mut sim, not, half_adder) = new_sim();
    sim.wire(not, half_adder, 0, 0).unwrap();
    sim.wire(not, half_adder, 0, 1).unwrap();
    sim.run_step();
    assert!(sim.is_on_at(half_adder, 1));
    assert!(sim.is_off_at(half_adder, 0));
}

#[test]
fn test_full_adder() {
    let new_sim = || engine_with_not_and(FullAdder);

    let (mut sim, _, full_adder) = new_sim();
    sim.run_step();
    assert!(sim.is_off_at(full_adder, 0));
    assert!(sim.is_off_at(full_adder, 1));

    let (mut sim, not, full_adder) = new_sim();
    sim.wire(not, full_adder, 0, 0).unwrap();
    sim.run_step();
    assert!(sim.is_on_at(full_adder, 0));
    assert!(sim.is_off_at(full_adder, 1));

    let (mut sim, not, full_adder) = new_sim();
    sim.wire(not, full_adder, 0, 1).unwrap();
    sim.run_step();
    assert!(sim.is_on_at(full_adder, 0));
    assert!(sim.is_off_at(full_adder, 1));

    let (mut sim, not, full_adder) = new_sim();
    sim.wire(not, full_adder, 0, 2).unwrap();
    sim.run_step();
    assert!(sim.is_on_at(full_adder, 0));
    assert!(sim.is_off_at(full_adder, 1));

    let two_inputs_combinations = [(0, 1), (0, 2), (1, 2)];

    for (first, second) in two_inputs_combinations {
        let (mut sim, not, full_adder) = new_sim();
        sim.wire(not, full_adder, 0, first).unwrap();
        sim.wire(not, full_adder, 0, second).unwrap();
        sim.run_step();
        assert!(sim.is_off_at(full_adder, 0));
        assert!(sim.is_on_at(full_adder, 1));
    }

    let (mut sim, not, full_adder) = new_sim();
    sim.wire(not, full_adder, 0, 0).unwrap();
    sim.wire(not, full_adder, 0, 1).unwrap();
    sim.wire(not, full_adder, 0, 2).unwrap();
    sim.run_step();
    assert!(sim.is_on_at(full_adder, 1));
    assert!(sim.is_on_at(full_adder, 1));
}
