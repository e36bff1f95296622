use engine::name_map::NameMap;
use engine::netlist::{flatten, CircuitTemplate, Library, TemplateNode};
use engine::plugin_abi::{Bit, Value};
use engine::sim::Simulation;
use engine::components::Trigger;

fn set(sim: &mut Simulation, gate: usize, on: bool) {
    sim.invoke(gate, if on { "on" } else { "off" }, None).unwrap();
}

fn get_bit(sim: &Simulation, gate: usize) -> Bit {
    match sim.read(gate, "get").unwrap() {
        Value::Bits(bits) => bits[0],
        other => panic!("unexpected readout {other:?}"),
    }
}

fn and_circuit() -> CircuitTemplate {
    CircuitTemplate {
        name: "and_circuit".to_string(),
        nodes: vec![
            TemplateNode::InputPin { bits: 1 },
            TemplateNode::InputPin { bits: 1 },
            TemplateNode::And { bits: 1, inputs: 2 },
            TemplateNode::OutputPin { bits: 1 },
        ],
        connections: vec![((0, 0, 0), (2, 0, 0)), ((1, 0, 0), (2, 1, 0)), ((2, 0, 0), (3, 0, 0))],
        input_ports: Vec::new(),
        output_ports: Vec::new(),
        port_marker_nodes: Vec::new(),
        component_index: NameMap::new(),
    }
}

#[test]
fn tests_simple_and_circuit_propagates() {
    let mut library = Library::new();
    library.insert("main".to_string(), and_circuit());
    let netlist = flatten("main", &library).unwrap();
    let mut sim = Simulation::new(netlist);

    set(&mut sim, 0, true);
    set(&mut sim, 1, true);
    sim.run_to_quiescence();
    assert_eq!(get_bit(&sim, 3), Bit::One);

    set(&mut sim, 1, false);
    sim.run_to_quiescence();
    assert_eq!(get_bit(&sim, 3), Bit::Zero);
}

fn and2_subcircuit() -> CircuitTemplate {
    CircuitTemplate {
        name: "and2".to_string(),
        nodes: vec![TemplateNode::And { bits: 1, inputs: 2 }],
        connections: Vec::new(),
        input_ports: vec![vec![vec![(0, 0, 0)]], vec![vec![(0, 1, 0)]]],
        output_ports: vec![vec![vec![(0, 0, 0)]]],
        port_marker_nodes: Vec::new(),
        component_index: NameMap::new(),
    }
}

fn two_instances_circuit() -> CircuitTemplate {
    CircuitTemplate {
        name: "main".to_string(),
        nodes: vec![
            TemplateNode::InputPin { bits: 1 },
            TemplateNode::InputPin { bits: 1 },
            TemplateNode::InputPin { bits: 1 },
            TemplateNode::InputPin { bits: 1 },
            TemplateNode::Subcircuit("and2".to_string()),
            TemplateNode::Subcircuit("and2".to_string()),
            TemplateNode::OutputPin { bits: 1 },
            TemplateNode::OutputPin { bits: 1 },
        ],
        connections: vec![
            ((0, 0, 0), (4, 0, 0)),
            ((1, 0, 0), (4, 1, 0)),
            ((4, 2, 0), (6, 0, 0)),
            ((2, 0, 0), (5, 0, 0)),
            ((3, 0, 0), (5, 1, 0)),
            ((5, 2, 0), (7, 0, 0)),
        ],
        input_ports: Vec::new(),
        output_ports: Vec::new(),
        port_marker_nodes: Vec::new(),
        component_index: NameMap::new(),
    }
}

#[test]
fn tests_subcircuit_instances_are_independent() {
    let mut library = Library::new();
    library.insert("and2".to_string(), and2_subcircuit());
    library.insert("main".to_string(), two_instances_circuit());
    let netlist = flatten("main", &library).unwrap();

    assert_eq!(netlist.gates.len(), 8);

    let mut sim = Simulation::new(netlist);
    set(&mut sim, 0, true);
    set(&mut sim, 1, true);
    set(&mut sim, 2, true);
    set(&mut sim, 3, false);
    sim.run_to_quiescence();

    assert_eq!(get_bit(&sim, 6), Bit::One);
    assert_eq!(get_bit(&sim, 7), Bit::Zero);
}

fn shared_point_circuit() -> CircuitTemplate {
    CircuitTemplate {
        name: "main".to_string(),
        nodes: vec![
            TemplateNode::InputPin { bits: 1 },
            TemplateNode::InputPin { bits: 1 },
            TemplateNode::OutputPin { bits: 1 },
        ],
        connections: vec![((0, 0, 0), (2, 0, 0)), ((1, 0, 0), (2, 0, 0))],
        input_ports: Vec::new(),
        output_ports: Vec::new(),
        port_marker_nodes: Vec::new(),
        component_index: NameMap::new(),
    }
}

#[test]
fn tests_multiple_drivers_combine_and_detect_short_circuit() {
    let mut library = Library::new();
    library.insert("main".to_string(), shared_point_circuit());
    let netlist = flatten("main", &library).unwrap();
    let mut sim = Simulation::new(netlist);

    set(&mut sim, 0, true);
    set(&mut sim, 1, true);
    sim.run_to_quiescence();
    assert_eq!(get_bit(&sim, 2), Bit::One, "agreeing drivers pass through");

    set(&mut sim, 1, false);
    sim.run_to_quiescence();
    assert_eq!(get_bit(&sim, 2), Bit::Error, "disagreeing drivers short-circuit");
}

fn two_disjoint_chains() -> CircuitTemplate {
    CircuitTemplate {
        name: "main".to_string(),
        nodes: vec![
            TemplateNode::InputPin { bits: 1 },
            TemplateNode::InputPin { bits: 1 },
            TemplateNode::And { bits: 1, inputs: 2 },
            TemplateNode::OutputPin { bits: 1 },
            TemplateNode::InputPin { bits: 1 },
            TemplateNode::InputPin { bits: 1 },
            TemplateNode::And { bits: 1, inputs: 2 },
            TemplateNode::OutputPin { bits: 1 },
        ],
        connections: vec![
            ((0, 0, 0), (2, 0, 0)),
            ((1, 0, 0), (2, 1, 0)),
            ((2, 0, 0), (3, 0, 0)),
            ((4, 0, 0), (6, 0, 0)),
            ((5, 0, 0), (6, 1, 0)),
            ((6, 0, 0), (7, 0, 0)),
        ],
        input_ports: Vec::new(),
        output_ports: Vec::new(),
        port_marker_nodes: Vec::new(),
        component_index: NameMap::new(),
    }
}

#[test]
fn tests_independent_branches_evaluate_correctly_in_the_same_batch() {
    let mut library = Library::new();
    library.insert("main".to_string(), two_disjoint_chains());
    let netlist = flatten("main", &library).unwrap();
    let mut sim = Simulation::new(netlist);

    set(&mut sim, 0, true);
    set(&mut sim, 1, false);
    set(&mut sim, 4, true);
    set(&mut sim, 5, true);
    sim.run_to_quiescence();

    assert_eq!(get_bit(&sim, 3), Bit::Zero);
    assert_eq!(get_bit(&sim, 7), Bit::One);
}

fn pulled_output_circuit() -> CircuitTemplate {
    CircuitTemplate {
        name: "main".to_string(),
        nodes: vec![
            TemplateNode::InputPin { bits: 1 },
            TemplateNode::PullResistor(Bit::One),
            TemplateNode::OutputPin { bits: 1 },
        ],
        connections: vec![((0, 0, 0), (2, 0, 0)), ((1, 0, 0), (2, 0, 0))],
        input_ports: Vec::new(),
        output_ports: Vec::new(),
        port_marker_nodes: Vec::new(),
        component_index: NameMap::new(),
    }
}

#[test]
fn tests_pull_resistor_only_wins_when_nothing_else_drives() {
    let mut library = Library::new();
    library.insert("main".to_string(), pulled_output_circuit());
    let netlist = flatten("main", &library).unwrap();
    let mut sim = Simulation::new(netlist);

    sim.run_to_quiescence();
    assert_eq!(get_bit(&sim, 2), Bit::Zero, "a real driver (even 0) beats the pull");

    set(&mut sim, 0, true);
    sim.run_to_quiescence();
    assert_eq!(get_bit(&sim, 2), Bit::One, "real driver still wins, happens to agree with pull here");
}

#[test]
fn tests_pull_resistor_fills_in_when_truly_unconnected() {
    let mut library = Library::new();

    library.insert(
        "main".to_string(),
        CircuitTemplate {
            name: "main".to_string(),
            nodes: vec![TemplateNode::PullResistor(Bit::One), TemplateNode::OutputPin { bits: 1 }],
            connections: vec![((0, 0, 0), (1, 0, 0))],
            input_ports: Vec::new(),
            output_ports: Vec::new(),
            port_marker_nodes: Vec::new(),
        component_index: NameMap::new(),
        },
    );
    let netlist = flatten("main", &library).unwrap();
    let mut sim = Simulation::new(netlist);
    sim.run_to_quiescence();
    assert_eq!(get_bit(&sim, 1), Bit::One);
}

#[test]
fn tests_pull_resistor_does_not_mask_a_real_short_circuit() {
    let mut library = Library::new();
    library.insert(
        "main".to_string(),
        CircuitTemplate {
            name: "main".to_string(),
            nodes: vec![
                TemplateNode::InputPin { bits: 1 },
                TemplateNode::InputPin { bits: 1 },
                TemplateNode::PullResistor(Bit::One),
                TemplateNode::OutputPin { bits: 1 },
            ],
            connections: vec![((0, 0, 0), (3, 0, 0)), ((1, 0, 0), (3, 0, 0)), ((2, 0, 0), (3, 0, 0))],
            input_ports: Vec::new(),
            output_ports: Vec::new(),
            port_marker_nodes: Vec::new(),
        component_index: NameMap::new(),
        },
    );
    let netlist = flatten("main", &library).unwrap();
    let mut sim = Simulation::new(netlist);

    set(&mut sim, 0, true);
    set(&mut sim, 1, false);
    sim.run_to_quiescence();
    assert_eq!(
        get_bit(&sim, 3),
        Bit::Error,
        "a real conflict stays an error, the pull resistor doesn't paper over it"
    );
}

fn clock_feeds_register_circuit() -> CircuitTemplate {
    CircuitTemplate {
        name: "main".to_string(),
        nodes: vec![
            TemplateNode::Constant { bits: 1, value: 1 },
            TemplateNode::Clock { high: 1, low: 1 },
            TemplateNode::Register { bits: 1, trigger: Trigger::Rising },
            TemplateNode::OutputPin { bits: 1 },
        ],
        connections: vec![((0, 0, 0), (2, 0, 0)), ((1, 0, 0), (2, 1, 0)), ((2, 0, 0), (3, 0, 0))],
        input_ports: Vec::new(),
        output_ports: Vec::new(),
        port_marker_nodes: Vec::new(),
        component_index: NameMap::new(),
    }
}

#[test]
fn tests_register_sees_the_first_real_clock_edge_even_without_a_leading_settle() {
    let mut library = Library::new();
    library.insert("main".to_string(), clock_feeds_register_circuit());
    let netlist = flatten("main", &library).unwrap();
    let mut sim = Simulation::new(netlist);

    sim.tick();
    sim.run_to_quiescence();
    assert_eq!(get_bit(&sim, 3), Bit::One, "the rising edge must be observed, not swallowed by a stale priming read");
}
