use engine::compile::{compile, CompileError};
use engine::file_format::{AttrValue, Circuit, ComponentInstance, Facing, ProjectFile};
use engine::name_map::NameMap;

fn comp(id: &str, type_: &str, attrs: Vec<(&str, AttrValue)>) -> ComponentInstance {
    let mut map = NameMap::new();
    for (name, value) in attrs {
        map.insert(name.to_string(), value);
    }
    ComponentInstance {
        id: id.to_string(),
        type_: type_.to_string(),
        x: 0,
        y: 0,
        facing: Facing::default(),
        attrs: map,
    }
}

fn circuit(name: &str, components: Vec<ComponentInstance>) -> Circuit {
    Circuit { name: name.to_string(), components, wires: vec![], annotations: vec![] }
}

fn project(circuits: Vec<Circuit>) -> ProjectFile {
    ProjectFile { schema_version: 1, main_circuit: "main".to_string(), circuits }
}

fn error_of(component: ComponentInstance) -> CompileError {
    compile(&project(vec![circuit("main", vec![component])])).unwrap_err()
}

fn text(s: &str) -> AttrValue {
    AttrValue::Str(s.to_string())
}

fn main_c() -> (String, String) {
    ("main".to_string(), "c".to_string())
}

#[test]
fn unknown_types_are_refused() {
    let (circuit, id) = main_c();
    assert_eq!(
        error_of(comp("c", "core:Nope", vec![])),
        CompileError::UnknownComponentType { circuit, id, type_: "core:Nope".to_string() }
    );
}

#[test]
fn unknown_subcircuits_are_refused() {
    let (circuit, id) = main_c();
    assert_eq!(
        error_of(comp("c", "core:circuit/gone", vec![])),
        CompileError::UnknownSubcircuit { circuit, id, referenced: "gone".to_string() }
    );
}

#[test]
fn repeated_ids_are_refused() {
    let found = compile(&project(vec![circuit(
        "main",
        vec![comp("c", "core:NotGate", vec![]), comp("c", "core:Nope", vec![])],
    )]))
    .unwrap_err();
    let (circuit, id) = main_c();
    assert_eq!(found, CompileError::DuplicateComponentId { circuit, id });
}

#[test]
fn the_first_problem_is_reported() {
    let found = compile(&project(vec![
        circuit("ok", vec![comp("g", "core:NotGate", vec![])]),
        circuit(
            "bad",
            vec![
                comp("g", "core:NotGate", vec![]),
                comp("w", "core:NotGate", vec![("width", AttrValue::Int(33))]),
                comp("x", "core:Nope", vec![]),
            ],
        ),
        circuit("main", vec![comp("x", "core:Nope", vec![])]),
    ]))
    .unwrap_err();
    assert_eq!(
        found,
        CompileError::InvalidWidth { circuit: "bad".to_string(), id: "w".to_string(), value: 33 }
    );
}

#[test]
fn widths_are_within_one_and_thirty_two() {
    for type_ in ["core:AndGate", "core:Buffer", "core:InputPin", "core:Adder", "core:Register"] {
        for value in [0i64, 33, -1] {
            let (circuit, id) = main_c();
            assert_eq!(
                error_of(comp("c", type_, vec![("width", AttrValue::Int(value))])),
                CompileError::InvalidWidth { circuit, id, value }
            );
        }
        for value in [1i64, 32] {
            let c = comp("c", type_, vec![("width", AttrValue::Int(value))]);
            assert!(compile(&project(vec![circuit("main", vec![c])])).is_ok());
        }
    }
}

#[test]
fn attributes_of_the_wrong_kind_count_as_missing() {
    let c = comp("c", "core:AndGate", vec![("width", text("40")), ("inputs", AttrValue::Null)]);
    let library = compile(&project(vec![circuit("main", vec![c])])).unwrap();
    assert_eq!(library.get("main").unwrap().nodes[0].output_width(0), 1);
}

#[test]
fn input_counts_are_within_two_and_thirty_two() {
    for value in [1i64, 33] {
        let (circuit, id) = main_c();
        assert_eq!(
            error_of(comp("c", "core:XorGate", vec![("inputs", AttrValue::Int(value))])),
            CompileError::InvalidInputCount { circuit, id, value }
        );
    }
}

#[test]
fn pull_targets_are_checked() {
    let (circuit, id) = main_c();
    assert_eq!(
        error_of(comp("c", "core:PullResistor", vec![("pull", text("2"))])),
        CompileError::InvalidPullTarget { circuit, id, value: "2".to_string() }
    );
}

#[test]
fn clock_phases_last_a_tick_at_least() {
    for field in ["highDuration", "lowDuration"] {
        let (circuit, id) = main_c();
        assert_eq!(
            error_of(comp("c", "core:Clock", vec![(field, AttrValue::Int(0))])),
            CompileError::InvalidClockDuration { circuit, id, field, value: 0 }
        );
    }
}

#[test]
fn triggers_are_checked() {
    for (type_, value) in
        [("core:Register", "edge"), ("core:Tty", "high"), ("core:Keyboard", "low")]
    {
        let (circuit, id) = main_c();
        assert_eq!(
            error_of(comp("c", type_, vec![("trigger", text(value))])),
            CompileError::InvalidTrigger { circuit, id, value: value.to_string() }
        );
    }
}

#[test]
fn plexer_attributes_are_checked() {
    for type_ in ["core:Multiplexer", "core:Demultiplexer", "core:Decoder", "core:PriorityEncoder"]
    {
        for value in [0i64, 6] {
            let (circuit, id) = main_c();
            assert_eq!(
                error_of(comp("c", type_, vec![("select", AttrValue::Int(value))])),
                CompileError::InvalidSelectWidth { circuit, id, value }
            );
        }
        let (circuit, id) = main_c();
        assert_eq!(
            error_of(comp("c", type_, vec![("disabled", text("1"))])),
            CompileError::InvalidDisabledOption { circuit, id, value: "1".to_string() }
        );
    }
}

#[test]
fn comparator_modes_are_checked() {
    let (circuit, id) = main_c();
    assert_eq!(
        error_of(comp("c", "core:Comparator", vec![("mode", text("onesComplement"))])),
        CompileError::InvalidComparatorMode { circuit, id, value: "onesComplement".to_string() }
    );
}

#[test]
fn splitter_attributes_are_checked() {
    for value in [0i64, 33] {
        let (circuit, id) = main_c();
        assert_eq!(
            error_of(comp("c", "core:Splitter", vec![("fanout", AttrValue::Int(value))])),
            CompileError::InvalidFanout { circuit, id, value }
        );
        let (circuit, id) = main_c();
        assert_eq!(
            error_of(comp("c", "core:Splitter", vec![("incoming", AttrValue::Int(value))])),
            CompileError::InvalidWidth { circuit, id, value }
        );
    }
    for bits in [vec![Some(1)], vec![Some(1), Some(3)], vec![Some(1), None]] {
        let found = error_of(comp("c", "core:Splitter", vec![("bits", AttrValue::Array(bits))]));
        assert!(matches!(found, CompileError::InvalidSplitterBits { .. }));
    }
}

#[test]
fn extender_and_transistor_types_are_checked() {
    let (circuit, id) = main_c();
    assert_eq!(
        error_of(comp("c", "core:BitExtender", vec![("type", text("two"))])),
        CompileError::InvalidExtendType { circuit, id, value: "two".to_string() }
    );
    let (circuit, id) = main_c();
    assert_eq!(
        error_of(comp("c", "core:Transistor", vec![("type", text("q"))])),
        CompileError::InvalidTransistorType { circuit, id, value: "q".to_string() }
    );
}

#[test]
fn dot_matrix_attributes_are_checked() {
    for field in ["matrixcols", "matrixrows"] {
        let (circuit, id) = main_c();
        assert_eq!(
            error_of(comp("c", "core:DotMatrix", vec![(field, AttrValue::Int(33))])),
            CompileError::InvalidDotMatrixSize { circuit, id, field, value: 33 }
        );
    }
    let (circuit, id) = main_c();
    assert_eq!(
        error_of(comp("c", "core:DotMatrix", vec![("inputtype", text("pixel"))])),
        CompileError::InvalidDotMatrixInput { circuit, id, value: "pixel".to_string() }
    );
}

#[test]
fn terminal_and_keyboard_sizes_are_checked() {
    for (field, value) in [("cols", 121i64), ("rows", 49), ("cols", 0), ("rows", 0)] {
        let (circuit, id) = main_c();
        assert_eq!(
            error_of(comp("c", "core:Tty", vec![(field, AttrValue::Int(value))])),
            CompileError::InvalidTtyDimension { circuit, id, field, value }
        );
    }
    for value in [0i64, 257] {
        let (circuit, id) = main_c();
        assert_eq!(
            error_of(comp("c", "core:Keyboard", vec![("buflen", AttrValue::Int(value))])),
            CompileError::InvalidKeyboardBufferLength { circuit, id, value }
        );
    }
}

#[test]
fn attribute_values_say_what_they_are() {
    assert_eq!(AttrValue::Int(7).as_i64(), Some(7));
    assert_eq!(AttrValue::Bool(true).as_bool(), Some(true));
    assert_eq!(text("x").as_str(), Some("x"));
    assert_eq!(AttrValue::Array(vec![Some(1), None]).as_array(), Some(&vec![Some(1), None]));
    for value in [AttrValue::Null, AttrValue::Other] {
        assert_eq!(value.as_i64(), None);
        assert_eq!(value.as_bool(), None);
        assert_eq!(value.as_str(), None);
        assert!(value.as_array().is_none());
    }
}

#[test]
fn name_maps_keep_the_last_value() {
    let mut map = NameMap::new();
    assert!(map.get("a").is_none());
    map.insert("a".to_string(), 1);
    map.insert("b".to_string(), 2);
    map.insert("a".to_string(), 3);
    assert_eq!(map.get("a"), Some(&3));
    assert_eq!(map.get("b"), Some(&2));
    assert!(map.contains_key("b") && !map.contains_key("c"));
}
