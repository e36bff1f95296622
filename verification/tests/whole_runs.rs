use engine::compile::geometry::SUBCIRCUIT_WIDTH;
use engine::compile::splitter::{bit_thread_for, default_bit_end};
use engine::compile::{compile, CompileError};
use engine::file_format::{AttrValue, Circuit, ComponentInstance, Facing, ProjectFile, WireSegment};
use engine::name_map::NameMap;
use engine::netlist::{
    flatten, flatten_with_entry_map, CircuitTemplate, Library, NetlistError, TemplateNode,
};
use engine::plugin_abi::{ActionError, Bit, Component, Value};
use engine::sim::Simulation;
use engine::summary::{bit_char, run_project, PinLine, RunError};

fn comp(id: &str, type_: &str, x: i32, y: i32) -> ComponentInstance {
    with(id, type_, x, y, vec![])
}

fn with(id: &str, type_: &str, x: i32, y: i32, attrs: Vec<(&str, AttrValue)>) -> ComponentInstance {
    let mut map = NameMap::new();
    for (name, value) in attrs {
        map.insert(name.to_string(), value);
    }
    ComponentInstance {
        id: id.to_string(),
        type_: type_.to_string(),
        x,
        y,
        facing: Facing::East,
        attrs: map,
    }
}

fn wire(from: [i32; 2], to: [i32; 2]) -> WireSegment {
    WireSegment { id: "w".to_string(), from, to }
}

fn circuit(name: &str, components: Vec<ComponentInstance>, wires: Vec<WireSegment>) -> Circuit {
    Circuit { name: name.to_string(), components, wires, annotations: vec![] }
}

fn project(circuits: Vec<Circuit>) -> ProjectFile {
    ProjectFile { schema_version: 1, main_circuit: "main".to_string(), circuits }
}

fn inverter(name: &str) -> Circuit {
    circuit(
        name,
        vec![
            comp("in", "core:InputPin", 0, 0),
            comp("n", "core:NotGate", 0, 0),
            comp("out", "core:OutputPin", 2, 0),
        ],
        vec![],
    )
}

fn start(p: &ProjectFile) -> Simulation {
    Simulation::new(flatten(&p.main_circuit, &compile(p).unwrap()).unwrap())
}

fn get(sim: &Simulation, gate: usize) -> Vec<Bit> {
    match sim.read(gate, "get").unwrap() {
        Value::Bits(bits) => bits,
        other => panic!("unexpected readout {other:?}"),
    }
}

fn shown(text: &str) -> PinLine {
    PinLine::Shown(text.to_string())
}

#[test]
fn a_run_reports_every_pin() {
    let lines = run_project(&project(vec![inverter("main")])).unwrap();
    assert_eq!(
        lines,
        vec![shown("  in (core:InputPin) = 0"), shown("  out (core:OutputPin) = 1")]
    );
}

#[test]
fn a_report_has_the_lowest_bit_first() {
    let main = circuit(
        "main",
        vec![
            with("k", "core:Constant", 0, 0, vec![
                ("width", AttrValue::Int(4)),
                ("value", AttrValue::Int(3)),
            ]),
            with("out", "core:OutputPin", 0, 0, vec![("width", AttrValue::Int(4))]),
            with("open", "core:OutputPin", 9, 9, vec![("width", AttrValue::Int(2))]),
        ],
        vec![],
    );
    let lines = run_project(&project(vec![main])).unwrap();
    assert_eq!(
        lines,
        vec![shown("  out (core:OutputPin) = 1100"), shown("  open (core:OutputPin) = xx")]
    );
}

#[test]
fn splitters_do_not_shift_the_report() {
    let main = circuit(
        "main",
        vec![
            comp("s", "core:Splitter", 50, 50),
            comp("p", "core:Power", 0, 0),
            comp("out", "core:OutputPin", 0, 0),
        ],
        vec![],
    );
    assert_eq!(
        run_project(&project(vec![main])).unwrap(),
        vec![shown("  out (core:OutputPin) = 1")]
    );
}

#[test]
fn a_run_says_what_is_wrong() {
    let mut p = project(vec![circuit("main", vec![comp("c", "core:Nope", 0, 0)], vec![])]);
    assert_eq!(
        run_project(&p),
        Err(RunError::Compile(CompileError::UnknownComponentType {
            circuit: "main".to_string(),
            id: "c".to_string(),
            type_: "core:Nope".to_string(),
        }))
    );
    p.circuits.clear();
    assert_eq!(
        run_project(&p),
        Err(RunError::Flatten(NetlistError::UnknownSubcircuit("main".to_string())))
    );
}

#[test]
fn bits_are_shown_as_characters() {
    let text: String =
        [Bit::Zero, Bit::One, Bit::Unknown, Bit::Error].into_iter().map(bit_char).collect();
    assert_eq!(text, "01xE");
}

#[test]
fn circuits_within_themselves_are_refused() {
    let p = project(vec![
        circuit("main", vec![comp("a", "core:circuit/mid", 0, 0)], vec![]),
        circuit("mid", vec![comp("b", "core:circuit/main", 0, 0)], vec![]),
    ]);
    let library = compile(&p).unwrap();
    assert_eq!(
        flatten("main", &library).unwrap_err(),
        NetlistError::CircularSubcircuit(vec![
            "main".to_string(),
            "mid".to_string(),
            "main".to_string(),
        ])
    );
}

#[test]
fn a_library_without_the_circuit_cannot_be_flattened() {
    let mut library: Library = NameMap::new();
    library.insert(
        "main".to_string(),
        CircuitTemplate {
            name: "main".to_string(),
            nodes: vec![TemplateNode::Subcircuit("gone".to_string())],
            connections: vec![],
            input_ports: vec![],
            output_ports: vec![],
            port_marker_nodes: vec![],
            component_index: NameMap::new(),
        },
    );
    assert_eq!(
        flatten("main", &library).unwrap_err(),
        NetlistError::UnknownSubcircuit("gone".to_string())
    );
}

#[test]
fn the_last_circuit_of_a_name_counts() {
    let p = project(vec![
        circuit("main", vec![comp("a", "core:Power", 0, 0)], vec![]),
        inverter("main"),
    ]);
    assert_eq!(compile(&p).unwrap().get("main").unwrap().nodes.len(), 3);
}

#[test]
fn every_instance_has_its_own_gates() {
    let w = SUBCIRCUIT_WIDTH;
    let main = circuit(
        "main",
        vec![
            comp("a", "core:InputPin", 0, 0),
            comp("first", "core:circuit/inv", 0, 0),
            comp("second", "core:circuit/inv", w, 0),
            comp("out", "core:OutputPin", 2 * w, 0),
        ],
        vec![],
    );
    let p = project(vec![inverter("inv"), main]);
    let (netlist, gates) = flatten_with_entry_map("main", &compile(&p).unwrap()).unwrap();
    assert_eq!(netlist.gates.len(), 2 + 2 * 3);
    assert_eq!(gates.len(), 2);
    assert_eq!(gates[&0], 0);
    assert_eq!(gates[&3], 7);
    assert_eq!(netlist.gates[1], netlist.gates[4]);
    let mut sim = Simulation::new(netlist);
    sim.invoke(0, "on", None).unwrap();
    sim.run_to_quiescence();
    assert_eq!(get(&sim, 7), vec![Bit::One]);
}

#[test]
fn ports_come_in_the_order_of_their_ids() {
    let sub = circuit(
        "sub",
        vec![
            comp("z", "core:InputPin", 0, 0),
            comp("a", "core:InputPin", 0, 10),
            comp("b", "core:Buffer", 0, 10),
            comp("out", "core:OutputPin", 2, 10),
        ],
        vec![],
    );
    let main = circuit(
        "main",
        vec![
            comp("one", "core:Power", 0, 0),
            comp("i", "core:circuit/sub", 0, 0),
            comp("out", "core:OutputPin", SUBCIRCUIT_WIDTH, 0),
        ],
        vec![],
    );
    assert_eq!(
        run_project(&project(vec![main, sub])).unwrap(),
        vec![shown("  out (core:OutputPin) = 1")]
    );
}

#[test]
fn facing_turns_the_pins() {
    for (facing, out) in [
        (Facing::East, [2, 0]),
        (Facing::South, [0, 2]),
        (Facing::West, [-2, 0]),
        (Facing::North, [0, -2]),
    ] {
        let mut not = comp("n", "core:NotGate", 10, 20);
        not.facing = facing;
        let main = circuit(
            "main",
            vec![
                comp("g", "core:Ground", 10, 20),
                not,
                comp("out", "core:OutputPin", 10 + out[0], 20 + out[1]),
            ],
            vec![],
        );
        assert_eq!(
            run_project(&project(vec![main])).unwrap(),
            vec![shown("  out (core:OutputPin) = 1")]
        );
    }
}

#[test]
fn pins_at_the_edge_of_the_drawing_do_not_overflow() {
    let main = circuit(
        "main",
        vec![
            comp("g", "core:Ground", i32::MAX, i32::MIN),
            comp("n", "core:NotGate", i32::MAX, i32::MIN),
        ],
        vec![wire([i32::MAX, i32::MIN], [i32::MIN, i32::MAX])],
    );
    assert!(compile(&project(vec![main])).is_ok());
}

#[test]
fn wires_lead_through_each_other() {
    let main = circuit(
        "main",
        vec![comp("p", "core:Power", 0, 0), comp("out", "core:OutputPin", 30, 0)],
        vec![wire([10, 0], [20, 0]), wire([30, 0], [20, 0]), wire([0, 0], [10, 0])],
    );
    assert_eq!(
        run_project(&project(vec![main])).unwrap(),
        vec![shown("  out (core:OutputPin) = 1")]
    );
}

#[test]
fn disagreeing_drivers_are_an_error_whatever_pulls() {
    let main = circuit(
        "main",
        vec![
            comp("p", "core:Power", 0, 0),
            comp("g", "core:Ground", 0, 0),
            comp("r", "core:PullResistor", 0, 0),
            comp("out", "core:OutputPin", 0, 0),
            with("r2", "core:PullResistor", 5, 0, vec![("pull", AttrValue::Str("1".to_string()))]),
            comp("weak", "core:OutputPin", 5, 0),
        ],
        vec![],
    );
    assert_eq!(
        run_project(&project(vec![main])).unwrap(),
        vec![shown("  out (core:OutputPin) = E"), shown("  weak (core:OutputPin) = 1")]
    );
}

#[test]
fn bits_are_shared_out_over_the_ends() {
    assert_eq!(default_bit_end(2, 5), vec![1, 1, 1, 2, 2]);
    assert_eq!(default_bit_end(3, 3), vec![1, 2, 3]);
    assert_eq!(default_bit_end(4, 2), vec![1, 2]);
    assert_eq!(bit_thread_for(&[1, 2, 1, 0, 2, 1]), vec![0, 0, 1, 0, 1, 2]);
}

#[test]
fn settling_again_changes_nothing() {
    let mut sim = start(&project(vec![inverter("main")]));
    sim.invoke(0, "on", None).unwrap();
    let t = sim.run_to_quiescence();
    let before: Vec<_> = (0..3).map(|g| sim.read(g, "get")).collect();
    assert_eq!(sim.run_to_quiescence(), t);
    assert!(!sim.step());
    assert_eq!((0..3).map(|g| sim.read(g, "get")).collect::<Vec<_>>(), before);
    assert_eq!(sim.time(), t);
}

#[test]
fn a_refused_action_schedules_nothing() {
    let mut sim = start(&project(vec![inverter("main")]));
    sim.run_to_quiescence();
    assert_eq!(
        sim.invoke(1, "on", None),
        Err(ActionError::UnknownAction("on".to_string()))
    );
    assert!(!sim.step());
}

#[test]
fn runs_of_the_same_circuit_are_the_same() {
    let gates: Vec<ComponentInstance> = (0..40)
        .map(|i| comp(&format!("n{i}"), "core:NotGate", 2 * i, 0))
        .chain([comp("in", "core:InputPin", 0, 0)])
        .collect();
    let p = project(vec![circuit("main", gates, vec![])]);
    let mut a = start(&p);
    let mut b = start(&p);
    a.invoke(40, "on", None).unwrap();
    b.invoke(40, "on", None).unwrap();
    loop {
        let more = a.step();
        assert_eq!(b.step(), more);
        assert_eq!(a.time(), b.time());
        for i in 0..40usize {
            assert_eq!(a.output_of((i, 0)), b.output_of((i, 0)));
        }
        if !more {
            break;
        }
    }
    for i in 0..40usize {
        let want = if i % 2 == 0 { Bit::Zero } else { Bit::One };
        assert_eq!(a.output_of((i, 0)), vec![want]);
    }
}

#[test]
fn a_batch_evaluates_every_gate_of_it() {
    let components: Vec<ComponentInstance> = (0..64)
        .flat_map(|i| {
            let source = if i % 3 == 0 { "core:Power" } else { "core:Ground" };
            [
                comp(&format!("s{i}"), source, 0, 10 * i),
                comp(&format!("n{i}"), "core:NotGate", 0, 10 * i),
                comp(&format!("o{i}"), "core:OutputPin", 2, 10 * i),
            ]
        })
        .collect();
    let mut sim = start(&project(vec![circuit("main", components, vec![])]));
    assert!(sim.has_headroom());
    sim.run_to_quiescence();
    for i in 0..64usize {
        let want = if i % 3 == 0 { Bit::Zero } else { Bit::One };
        assert_eq!(get(&sim, 3 * i + 2), vec![want]);
    }
}

#[test]
fn all_clocks_share_the_tick_counter() {
    let main = circuit(
        "main",
        vec![
            comp("a", "core:Clock", 0, 0),
            with("b", "core:Clock", 9, 0, vec![("highDuration", AttrValue::Int(2))]),
        ],
        vec![],
    );
    let mut sim = start(&project(vec![main]));
    let mut seen = Vec::new();
    for _ in 0..6 {
        sim.tick();
        sim.run_to_quiescence();
        seen.push((get(&sim, 0)[0], get(&sim, 1)[0]));
    }
    assert_eq!(sim.global_ticks(), 6);
    for t in 1..=6u64 {
        let mut a = engine::components::Gate::Clock { high: 1, low: 1, clicks: 0, sending: Bit::Zero };
        let mut b = engine::components::Gate::Clock { high: 2, low: 1, clicks: 0, sending: Bit::Zero };
        a.tick(t);
        b.tick(t);
        assert_eq!(seen[t as usize - 1], (a.eval(&[])[0][0], b.eval(&[])[0][0]));
    }
}

#[test]
fn a_register_first_reads_what_its_sources_computed() {
    let main = circuit(
        "main",
        vec![
            comp("r", "core:Register", 0, 0),
            comp("out", "core:OutputPin", 4, 0),
            comp("d", "core:Power", 0, 0),
            comp("n", "core:NotGate", -1, 2),
            comp("low", "core:Ground", -1, 2),
        ],
        vec![],
    );
    assert_eq!(
        run_project(&project(vec![main])).unwrap(),
        vec![shown("  out (core:OutputPin) = 1")]
    );
}

#[test]
fn a_register_waits_for_data_that_comes_from_far() {
    let mut components = vec![
        comp("r", "core:Register", 0, 0),
        comp("out", "core:OutputPin", 4, 0),
        comp("ck", "core:Clock", 1, 2),
        comp("p", "core:Power", -20, 0),
    ];
    for i in 0..10 {
        components.push(comp(&format!("b{i}"), "core:Buffer", -20 + 2 * i, 0));
    }
    let mut sim = start(&project(vec![circuit("main", components, vec![])]));
    sim.tick();
    sim.run_to_quiescence();
    assert_eq!(get(&sim, 1), vec![Bit::One]);
}

#[test]
fn an_action_does_not_make_a_gate_read_too_early() {
    let components = vec![
        comp("r", "core:Register", 0, 0),
        comp("out", "core:OutputPin", 4, 0),
        comp("n", "core:NotGate", -1, 2),
        comp("low", "core:Ground", -1, 2),
        comp("d", "core:Power", 0, 0),
    ];
    let mut sim = start(&project(vec![circuit("main", components, vec![])]));
    sim.invoke(0, "set", Some(Value::Int(0))).unwrap();
    sim.run_to_quiescence();
    assert_eq!(get(&sim, 1), vec![Bit::One]);
}
