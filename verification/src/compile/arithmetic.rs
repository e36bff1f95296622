//! Compiles the arithmetic components.
use vstd::prelude::*;
use crate::compile::attrs;
use crate::compile::attrs::{text_attr, width_attr};
use crate::compile::error::{CompileError, Problem};
use crate::compile::geometry;
use crate::compile::geometry::{Geometry};
use crate::file_format::{Circuit, ComponentInstance};
use crate::netlist::TemplateNode;
use crate::text;

verus! {

/// Whether a comparator compares two's complement numbers: its `mode`.
pub open spec fn signed_of(comp: ComponentInstance) -> Result<bool, Problem> {
    let raw = attrs::text_of(comp, "mode"@, "twosComplement"@);
    if raw == "twosComplement"@ {
        Ok(true)
    } else if raw == "unsigned"@ {
        Ok(false)
    } else {
        Err(Problem::InvalidComparatorMode(raw))
    }
}

/// The node of an arithmetic component, `None` for any other component.
pub open spec fn node_of(comp: ComponentInstance) -> Option<Result<TemplateNode, Problem>> {
    let t = comp.type_@;
    if t == "core:Adder"@ || t == "core:Subtractor"@ || t == "core:Comparator"@ {
        Some(
            match attrs::width_of(comp) {
                Err(p) => Err(p),
                Ok(bits) => if t == "core:Adder"@ {
                    Ok(TemplateNode::Adder { bits })
                } else if t == "core:Subtractor"@ {
                    Ok(TemplateNode::Subtractor { bits })
                } else {
                    match signed_of(comp) {
                        Err(p) => Err(p),
                        Ok(signed) => Ok(TemplateNode::Comparator { bits, signed }),
                    }
                },
            },
        )
    } else {
        None
    }
}

fn signed_attr(circuit: &Circuit, comp: &ComponentInstance) -> (r: Result<bool, CompileError>)
    ensures
        attrs::agrees(r, signed_of(*comp), *circuit, *comp),
{
    let raw: &str = text_attr(comp, "mode", "twosComplement");
    if text::same(raw, "twosComplement") {
        Ok(true)
    } else if text::same(raw, "unsigned") {
        Ok(false)
    } else {
        Err(
            CompileError::InvalidComparatorMode {
                circuit: circuit.name.clone(),
                id: comp.id.clone(),
                value: raw.to_owned(),
            },
        )
    }
}

/// Two data inputs and a carry or borrow, and two outputs: the result, and what is carried or
/// borrowed.
fn adder_geometry() -> (r: Geometry)
    ensures
        r.has(seq![(0, -1), (0, 1), (1, -2)], seq![(3, 0), (1, 2)]),
{
    let r = Geometry { inputs: vec![(0, -1), (0, 1), (1, -2)], outputs: vec![(3, 0), (1, 2)] };
    assert(geometry::points(r.inputs@) =~= seq![(0, -1), (0, 1), (1, -2)]);
    assert(geometry::points(r.outputs@) =~= seq![(3, 0), (1, 2)]);
    r
}

/// Two inputs, and three outputs: greater, equal, less.
fn comparator_geometry() -> (r: Geometry)
    ensures
        r.has(seq![(0, -1), (0, 1)], seq![(3, -1), (3, 0), (3, 1)]),
{
    let r = Geometry { inputs: vec![(0, -1), (0, 1)], outputs: vec![(3, -1), (3, 0), (3, 1)] };
    assert(geometry::points(r.inputs@) =~= seq![(0, -1), (0, 1)]);
    assert(geometry::points(r.outputs@) =~= seq![(3, -1), (3, 0), (3, 1)]);
    r
}

/// Compiles an arithmetic component.
pub(crate) fn compile(circuit: &Circuit, comp: &ComponentInstance) -> (r: Option<
    Result<(TemplateNode, Geometry), CompileError>,
>)
    ensures
        attrs::compiled_as(r, node_of(*comp), *circuit, *comp),
{
    let t: &str = comp.type_.as_str();
    let adder: bool = text::same(t, "core:Adder");
    let subtractor: bool = text::same(t, "core:Subtractor");
    if !adder && !subtractor && !text::same(t, "core:Comparator") {
        return None;
    }
    let bits: u8 = match width_attr(circuit, comp) {
        Ok(bits) => bits,
        Err(e) => {
            return Some(Err(e));
        },
    };
    if adder {
        Some(Ok((TemplateNode::Adder { bits }, adder_geometry())))
    } else if subtractor {
        Some(Ok((TemplateNode::Subtractor { bits }, adder_geometry())))
    } else {
        match signed_attr(circuit, comp) {
            Ok(signed) => Some(Ok((TemplateNode::Comparator { bits, signed }, comparator_geometry()))),
            Err(e) => Some(Err(e)),
        }
    }
}

} // verus!
