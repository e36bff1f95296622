//! Compiles dot matrices, terminals and keyboards.
use vstd::prelude::*;
use crate::compile::attrs;
use crate::compile::attrs::{int_attr, text_attr};
use crate::compile::error::{CompileError, Problem};
use crate::compile::geometry;
use crate::compile::geometry::{column_points, Geometry};
use crate::components::{DotMatrixInput, Trigger};
use crate::file_format::{Circuit, ComponentInstance};
use crate::netlist::TemplateNode;
use crate::text;

verus! {

/// The size of a dot matrix in one direction.
pub open spec fn dot_matrix_size_of(comp: ComponentInstance, key: Seq<char>, default: i64) -> Result<
    u8,
    Problem,
> {
    let raw = attrs::int_of(comp, key, default);
    if 1 <= raw <= 32 {
        Ok(raw as u8)
    } else {
        Err(Problem::InvalidDotMatrixSize(key, raw))
    }
}

/// The `inputtype` of a dot matrix.
pub open spec fn dot_matrix_input_of(comp: ComponentInstance) -> Result<DotMatrixInput, Problem> {
    let raw = attrs::text_of(comp, "inputtype"@, "column"@);
    if raw == "column"@ {
        Ok(DotMatrixInput::Column)
    } else if raw == "row"@ {
        Ok(DotMatrixInput::Row)
    } else if raw == "select"@ {
        Ok(DotMatrixInput::Select)
    } else {
        Err(Problem::InvalidDotMatrixInput(raw))
    }
}

/// The size of a terminal in one direction.
pub open spec fn tty_size_of(
    comp: ComponentInstance,
    key: Seq<char>,
    max: i64,
    default: i64,
) -> Result<u8, Problem> {
    let raw = attrs::int_of(comp, key, default);
    if 1 <= raw <= max {
        Ok(raw as u8)
    } else {
        Err(Problem::InvalidTtyDimension(key, raw))
    }
}

/// The `buflen` of a keyboard.
pub open spec fn keyboard_capacity_of(comp: ComponentInstance) -> Result<u16, Problem> {
    let raw = attrs::int_of(comp, "buflen"@, 32);
    if 1 <= raw <= 256 {
        Ok(raw as u16)
    } else {
        Err(Problem::InvalidKeyboardBufferLength(raw))
    }
}

/// The `trigger` of a terminal or a keyboard: an edge.
pub open spec fn edge_trigger_of(comp: ComponentInstance) -> Result<Trigger, Problem> {
    let raw = attrs::text_of(comp, "trigger"@, "rising"@);
    if raw == "rising"@ {
        Ok(Trigger::Rising)
    } else if raw == "falling"@ {
        Ok(Trigger::Falling)
    } else {
        Err(Problem::InvalidTrigger(raw))
    }
}

pub open spec fn dot_matrix_of(comp: ComponentInstance) -> Result<TemplateNode, Problem> {
    match (
        dot_matrix_size_of(comp, "matrixcols"@, 5),
        dot_matrix_size_of(comp, "matrixrows"@, 7),
        dot_matrix_input_of(comp),
    ) {
        (Err(p), _, _) => Err(p),
        (_, Err(p), _) => Err(p),
        (_, _, Err(p)) => Err(p),
        (Ok(cols), Ok(rows), Ok(input)) => Ok(TemplateNode::DotMatrix { rows, cols, input }),
    }
}

pub open spec fn tty_of(comp: ComponentInstance) -> Result<TemplateNode, Problem> {
    match (
        tty_size_of(comp, "cols"@, 120, 32),
        tty_size_of(comp, "rows"@, 48, 8),
        edge_trigger_of(comp),
    ) {
        (Err(p), _, _) => Err(p),
        (_, Err(p), _) => Err(p),
        (_, _, Err(p)) => Err(p),
        (Ok(cols), Ok(rows), Ok(trigger)) => Ok(TemplateNode::Tty { cols, rows, trigger }),
    }
}

pub open spec fn keyboard_of(comp: ComponentInstance) -> Result<TemplateNode, Problem> {
    match (keyboard_capacity_of(comp), edge_trigger_of(comp)) {
        (Err(p), _) => Err(p),
        (_, Err(p)) => Err(p),
        (Ok(capacity), Ok(trigger)) => Ok(TemplateNode::Keyboard { capacity, trigger }),
    }
}

/// The node of a component for input and output, `None` for any other component.
pub open spec fn node_of(comp: ComponentInstance) -> Option<Result<TemplateNode, Problem>> {
    let t = comp.type_@;
    if t == "core:DotMatrix"@ {
        Some(dot_matrix_of(comp))
    } else if t == "core:Tty"@ {
        Some(tty_of(comp))
    } else if t == "core:Keyboard"@ {
        Some(keyboard_of(comp))
    } else {
        None
    }
}

fn dot_matrix_size(
    circuit: &Circuit,
    comp: &ComponentInstance,
    key: &'static str,
    default: i64,
) -> (r: Result<u8, CompileError>)
    ensures
        attrs::agrees(r, dot_matrix_size_of(*comp, key@, default), *circuit, *comp),
{
    let raw: i64 = int_attr(comp, key, default);
    if 1 <= raw && raw <= 32 {
        Ok(raw as u8)
    } else {
        Err(
            CompileError::InvalidDotMatrixSize {
                circuit: circuit.name.clone(),
                id: comp.id.clone(),
                field: key,
                value: raw,
            },
        )
    }
}

fn dot_matrix_input(circuit: &Circuit, comp: &ComponentInstance) -> (r: Result<
    DotMatrixInput,
    CompileError,
>)
    ensures
        attrs::agrees(r, dot_matrix_input_of(*comp), *circuit, *comp),
{
    let raw: &str = text_attr(comp, "inputtype", "column");
    if text::same(raw, "column") {
        Ok(DotMatrixInput::Column)
    } else if text::same(raw, "row") {
        Ok(DotMatrixInput::Row)
    } else if text::same(raw, "select") {
        Ok(DotMatrixInput::Select)
    } else {
        Err(
            CompileError::InvalidDotMatrixInput {
                circuit: circuit.name.clone(),
                id: comp.id.clone(),
                value: raw.to_owned(),
            },
        )
    }
}

fn tty_size(
    circuit: &Circuit,
    comp: &ComponentInstance,
    key: &'static str,
    max: i64,
    default: i64,
) -> (r: Result<u8, CompileError>)
    requires
        max <= 255,
    ensures
        attrs::agrees(r, tty_size_of(*comp, key@, max, default), *circuit, *comp),
{
    let raw: i64 = int_attr(comp, key, default);
    if 1 <= raw && raw <= max {
        Ok(raw as u8)
    } else {
        Err(
            CompileError::InvalidTtyDimension {
                circuit: circuit.name.clone(),
                id: comp.id.clone(),
                field: key,
                value: raw,
            },
        )
    }
}

fn keyboard_capacity(circuit: &Circuit, comp: &ComponentInstance) -> (r: Result<u16, CompileError>)
    ensures
        attrs::agrees(r, keyboard_capacity_of(*comp), *circuit, *comp),
{
    let raw: i64 = int_attr(comp, "buflen", 32);
    if 1 <= raw && raw <= 256 {
        Ok(raw as u16)
    } else {
        Err(
            CompileError::InvalidKeyboardBufferLength {
                circuit: circuit.name.clone(),
                id: comp.id.clone(),
                value: raw,
            },
        )
    }
}

fn edge_trigger_attr(circuit: &Circuit, comp: &ComponentInstance) -> (r: Result<
    Trigger,
    CompileError,
>)
    ensures
        attrs::agrees(r, edge_trigger_of(*comp), *circuit, *comp),
{
    let raw: &str = text_attr(comp, "trigger", "rising");
    if text::same(raw, "rising") {
        Ok(Trigger::Rising)
    } else if text::same(raw, "falling") {
        Ok(Trigger::Falling)
    } else {
        Err(
            CompileError::InvalidTrigger {
                circuit: circuit.name.clone(),
                id: comp.id.clone(),
                value: raw.to_owned(),
            },
        )
    }
}

/// One input per column or row.
fn dot_matrix_line_geometry(n: u8) -> (r: Geometry)
    ensures
        r.has(geometry::column(0, n as nat), Seq::empty()),
{
    let r = Geometry { inputs: column_points(0, n as usize), outputs: Vec::new() };
    assert(geometry::points(r.outputs@) =~= Seq::empty());
    r
}

/// The columns' data, and the choice of rows.
fn dot_matrix_select_geometry() -> (r: Geometry)
    ensures
        r.has(geometry::column(0, 2), Seq::empty()),
{
    let r = Geometry { inputs: column_points(0, 2), outputs: Vec::new() };
    assert(geometry::points(r.outputs@) =~= Seq::empty());
    r
}

/// Clear, clock, write enable and data.
fn tty_geometry() -> (r: Geometry)
    ensures
        r.has(seq![(0, 0), (1, 0), (2, 0), (3, 0)], Seq::empty()),
{
    let r = Geometry { inputs: vec![(0, 0), (1, 0), (2, 0), (3, 0)], outputs: Vec::new() };
    assert(geometry::points(r.inputs@) =~= seq![(0, 0), (1, 0), (2, 0), (3, 0)]);
    assert(geometry::points(r.outputs@) =~= Seq::empty());
    r
}

/// Clear, clock and read enable; whether there is a character, and the character.
fn keyboard_geometry() -> (r: Geometry)
    ensures
        r.has(seq![(0, 0), (1, 0), (2, 0)], seq![(3, 0), (4, 0)]),
{
    let r = Geometry { inputs: vec![(0, 0), (1, 0), (2, 0)], outputs: vec![(3, 0), (4, 0)] };
    assert(geometry::points(r.inputs@) =~= seq![(0, 0), (1, 0), (2, 0)]);
    assert(geometry::points(r.outputs@) =~= seq![(3, 0), (4, 0)]);
    r
}

fn compile_dot_matrix(circuit: &Circuit, comp: &ComponentInstance) -> (r: Result<
    (TemplateNode, Geometry),
    CompileError,
>)
    ensures
        attrs::node_agrees(r, dot_matrix_of(*comp), *circuit, *comp),
{
    let cols: u8 = match dot_matrix_size(circuit, comp, "matrixcols", 5) {
        Ok(v) => v,
        Err(e) => {
            return Err(e);
        },
    };
    let rows: u8 = match dot_matrix_size(circuit, comp, "matrixrows", 7) {
        Ok(v) => v,
        Err(e) => {
            return Err(e);
        },
    };
    let input: DotMatrixInput = match dot_matrix_input(circuit, comp) {
        Ok(v) => v,
        Err(e) => {
            return Err(e);
        },
    };
    let geometry: Geometry = match input {
        DotMatrixInput::Column => dot_matrix_line_geometry(cols),
        DotMatrixInput::Row => dot_matrix_line_geometry(rows),
        DotMatrixInput::Select => dot_matrix_select_geometry(),
    };
    Ok((TemplateNode::DotMatrix { rows, cols, input }, geometry))
}

fn compile_tty(circuit: &Circuit, comp: &ComponentInstance) -> (r: Result<
    (TemplateNode, Geometry),
    CompileError,
>)
    ensures
        attrs::node_agrees(r, tty_of(*comp), *circuit, *comp),
{
    let cols: u8 = match tty_size(circuit, comp, "cols", 120, 32) {
        Ok(v) => v,
        Err(e) => {
            return Err(e);
        },
    };
    let rows: u8 = match tty_size(circuit, comp, "rows", 48, 8) {
        Ok(v) => v,
        Err(e) => {
            return Err(e);
        },
    };
    let trigger: Trigger = match edge_trigger_attr(circuit, comp) {
        Ok(v) => v,
        Err(e) => {
            return Err(e);
        },
    };
    Ok((TemplateNode::Tty { cols, rows, trigger }, tty_geometry()))
}

fn compile_keyboard(circuit: &Circuit, comp: &ComponentInstance) -> (r: Result<
    (TemplateNode, Geometry),
    CompileError,
>)
    ensures
        attrs::node_agrees(r, keyboard_of(*comp), *circuit, *comp),
{
    let capacity: u16 = match keyboard_capacity(circuit, comp) {
        Ok(v) => v,
        Err(e) => {
            return Err(e);
        },
    };
    let trigger: Trigger = match edge_trigger_attr(circuit, comp) {
        Ok(v) => v,
        Err(e) => {
            return Err(e);
        },
    };
    Ok((TemplateNode::Keyboard { capacity, trigger }, keyboard_geometry()))
}

/// Compiles a component for input and output.
pub(crate) fn compile(circuit: &Circuit, comp: &ComponentInstance) -> (r: Option<
    Result<(TemplateNode, Geometry), CompileError>,
>)
    ensures
        attrs::compiled_as(r, node_of(*comp), *circuit, *comp),
{
    let t: &str = comp.type_.as_str();
    if text::same(t, "core:DotMatrix") {
        Some(compile_dot_matrix(circuit, comp))
    } else if text::same(t, "core:Tty") {
        Some(compile_tty(circuit, comp))
    } else if text::same(t, "core:Keyboard") {
        Some(compile_keyboard(circuit, comp))
    } else {
        None
    }
}

} // verus!
