//! Compiles the logic gates.
use vstd::prelude::*;
use crate::compile::attrs;
use crate::compile::attrs::{int_attr, width_attr};
use crate::compile::error::{CompileError, Problem};
use crate::compile::geometry;
use crate::compile::geometry::{unary_geometry, Geometry, Point};
use crate::file_format::{Circuit, ComponentInstance};
use crate::netlist::TemplateNode;
use crate::text;

verus! {

/// The `inputs` of a gate, 2 where they are not given.
pub open spec fn inputs_of(comp: ComponentInstance) -> Result<usize, Problem> {
    let raw = attrs::int_of(comp, "inputs"@, 2);
    if 2 <= raw <= 32 {
        Ok(raw as usize)
    } else {
        Err(Problem::InvalidInputCount(raw))
    }
}

/// What gate a type with many inputs is.
pub open spec fn variadic_gate(t: Seq<char>, bits: u8, inputs: usize) -> Option<TemplateNode> {
    if t == "core:AndGate"@ {
        Some(TemplateNode::And { bits, inputs })
    } else if t == "core:OrGate"@ {
        Some(TemplateNode::Or { bits, inputs })
    } else if t == "core:NandGate"@ {
        Some(TemplateNode::Nand { bits, inputs })
    } else if t == "core:NorGate"@ {
        Some(TemplateNode::Nor { bits, inputs })
    } else if t == "core:XorGate"@ {
        Some(TemplateNode::Xor { bits, inputs })
    } else if t == "core:XnorGate"@ {
        Some(TemplateNode::Xnor { bits, inputs })
    } else {
        None
    }
}

/// What gate a type with one data input is.
pub open spec fn plain_gate(t: Seq<char>, bits: u8) -> Option<TemplateNode> {
    if t == "core:NotGate"@ {
        Some(TemplateNode::Not { bits })
    } else if t == "core:Buffer"@ {
        Some(TemplateNode::Buffer { bits })
    } else if t == "core:ControlledBuffer"@ {
        Some(TemplateNode::ControlledBuffer { bits })
    } else {
        None
    }
}

/// The node of a logic gate, `None` for any other component.
pub open spec fn node_of(comp: ComponentInstance) -> Option<Result<TemplateNode, Problem>> {
    let t = comp.type_@;
    if variadic_gate(t, 1, 2) is Some {
        Some(
            match (attrs::width_of(comp), inputs_of(comp)) {
                (Err(p), _) => Err(p),
                (_, Err(p)) => Err(p),
                (Ok(bits), Ok(inputs)) => Ok(variadic_gate(t, bits, inputs)->0),
            },
        )
    } else if plain_gate(t, 1) is Some {
        Some(
            match attrs::width_of(comp) {
                Err(p) => Err(p),
                Ok(bits) => Ok(plain_gate(t, bits)->0),
            },
        )
    } else {
        None
    }
}

fn inputs_attr(circuit: &Circuit, comp: &ComponentInstance) -> (r: Result<usize, CompileError>)
    ensures
        attrs::agrees(r, inputs_of(*comp), *circuit, *comp),
{
    let raw: i64 = int_attr(comp, "inputs", 2);
    if 2 <= raw && raw <= 32 {
        Ok(raw as usize)
    } else {
        Err(
            CompileError::InvalidInputCount {
                circuit: circuit.name.clone(),
                id: comp.id.clone(),
                value: raw,
            },
        )
    }
}

/// Inputs around the middle of the west side, and one output.
fn variadic_gate_geometry(inputs: usize) -> (r: Geometry)
    ensures
        r.has(geometry::centered(inputs as nat), seq![(3, 0)]),
{
    let n: i128 = inputs as i128;
    let mut places: Vec<Point> = Vec::new();
    for i in 0..inputs
        invariant
            n == inputs,
            places@.len() == i,
            forall|j: int| 0 <= j < i ==> #[trigger] places@[j] == (0i128, (2 * j - (n - 1)) as i128),
    {
        places.push((0, 2 * i as i128 - (n - 1)));
    }
    let r = Geometry { inputs: places, outputs: vec![(3, 0)] };
    assert(geometry::points(r.inputs@) =~= geometry::centered(inputs as nat));
    assert(geometry::points(r.outputs@) =~= seq![(3, 0)]);
    r
}

/// Data and enable inputs, and one output.
fn controlled_buffer_geometry() -> (r: Geometry)
    ensures
        r.has(seq![(0, 0), (1, -2)], seq![(2, 0)]),
{
    let r = Geometry { inputs: vec![(0, 0), (1, -2)], outputs: vec![(2, 0)] };
    assert(geometry::points(r.inputs@) =~= seq![(0, 0), (1, -2)]);
    assert(geometry::points(r.outputs@) =~= seq![(2, 0)]);
    r
}

fn variadic(t: &str, bits: u8, inputs: usize) -> (r: Option<TemplateNode>)
    ensures
        r == variadic_gate(t@, bits, inputs),
{
    if text::same(t, "core:AndGate") {
        Some(TemplateNode::And { bits, inputs })
    } else if text::same(t, "core:OrGate") {
        Some(TemplateNode::Or { bits, inputs })
    } else if text::same(t, "core:NandGate") {
        Some(TemplateNode::Nand { bits, inputs })
    } else if text::same(t, "core:NorGate") {
        Some(TemplateNode::Nor { bits, inputs })
    } else if text::same(t, "core:XorGate") {
        Some(TemplateNode::Xor { bits, inputs })
    } else if text::same(t, "core:XnorGate") {
        Some(TemplateNode::Xnor { bits, inputs })
    } else {
        None
    }
}

fn plain(t: &str, bits: u8) -> (r: Option<TemplateNode>)
    ensures
        r == plain_gate(t@, bits),
{
    if text::same(t, "core:NotGate") {
        Some(TemplateNode::Not { bits })
    } else if text::same(t, "core:Buffer") {
        Some(TemplateNode::Buffer { bits })
    } else if text::same(t, "core:ControlledBuffer") {
        Some(TemplateNode::ControlledBuffer { bits })
    } else {
        None
    }
}

/// Compiles a logic gate.
pub(crate) fn compile(circuit: &Circuit, comp: &ComponentInstance) -> (r: Option<
    Result<(TemplateNode, Geometry), CompileError>,
>)
    ensures
        attrs::compiled_as(r, node_of(*comp), *circuit, *comp),
{
    let t: &str = comp.type_.as_str();
    if variadic(t, 1, 2).is_some() {
        let bits: u8 = match width_attr(circuit, comp) {
            Ok(bits) => bits,
            Err(e) => {
                return Some(Err(e));
            },
        };
        let inputs: usize = match inputs_attr(circuit, comp) {
            Ok(inputs) => inputs,
            Err(e) => {
                return Some(Err(e));
            },
        };
        match variadic(t, bits, inputs) {
            Some(node) => Some(Ok((node, variadic_gate_geometry(inputs)))),
            None => None,
        }
    } else if plain(t, 1).is_some() {
        let bits: u8 = match width_attr(circuit, comp) {
            Ok(bits) => bits,
            Err(e) => {
                return Some(Err(e));
            },
        };
        match plain(t, bits) {
            Some(TemplateNode::ControlledBuffer { bits }) => Some(
                Ok((TemplateNode::ControlledBuffer { bits }, controlled_buffer_geometry())),
            ),
            Some(node) => Some(Ok((node, unary_geometry()))),
            None => None,
        }
    } else {
        None
    }
}

} // verus!
