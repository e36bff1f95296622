//! Compiles sources and sinks, pull resistors, bit extenders, hex digits and transistors.
//!
//! Ground and power are constants, a button is a one-bit input pin, a light is a one-bit output
//! pin, and a probe is an output pin.
use vstd::prelude::*;
use vstd::arithmetic::power2;
use crate::compile::attrs;
use crate::compile::attrs::{bits_attr, int_attr, text_attr, width_attr};
use crate::compile::error::{CompileError, Problem};
use crate::compile::geometry;
use crate::compile::geometry::{sink_geometry, source_geometry, Geometry, Point};
use crate::components::ExtendMode;
use crate::file_format::{Circuit, ComponentInstance};
use crate::netlist::TemplateNode;
use crate::plugin_abi::Bit;
use crate::text;

verus! {

/// What a pull resistor `pull`s to.
pub open spec fn pull_of(comp: ComponentInstance) -> Result<Bit, Problem> {
    let raw = attrs::text_of(comp, "pull"@, "0"@);
    if raw == "0"@ {
        Ok(Bit::Zero)
    } else if raw == "1"@ {
        Ok(Bit::One)
    } else if raw == "X"@ {
        Ok(Bit::Error)
    } else {
        Err(Problem::InvalidPullTarget(raw))
    }
}

/// The `value` of a constant: the low 32 bits of the attribute.
pub open spec fn value_of(comp: ComponentInstance) -> u32 {
    attrs::int_of(comp, "value"@, 0) as u32
}

/// The `type` of a bit extender.
pub open spec fn extend_mode_of(comp: ComponentInstance) -> Result<ExtendMode, Problem> {
    let raw = attrs::text_of(comp, "type"@, "zero"@);
    if raw == "zero"@ {
        Ok(ExtendMode::Zero)
    } else if raw == "one"@ {
        Ok(ExtendMode::One)
    } else if raw == "sign"@ {
        Ok(ExtendMode::Sign)
    } else if raw == "input"@ {
        Ok(ExtendMode::Input)
    } else {
        Err(Problem::InvalidExtendType(raw))
    }
}

/// The level at which a transistor of a `type` conducts.
pub open spec fn conducts_on_of(comp: ComponentInstance) -> Result<Bit, Problem> {
    let raw = attrs::text_of(comp, "type"@, "p"@);
    if raw == "p"@ {
        Ok(Bit::Zero)
    } else if raw == "n"@ {
        Ok(Bit::One)
    } else {
        Err(Problem::InvalidTransistorType(raw))
    }
}

/// The number with the low `bits` bits set.
pub open spec fn ones(bits: u8) -> u32 {
    (power2::pow2(bits as nat) - 1) as u32
}

/// The source or sink of a type, with a width.
pub open spec fn endpoint(comp: ComponentInstance, bits: u8) -> Option<TemplateNode> {
    let t = comp.type_@;
    if t == "core:Constant"@ {
        Some(TemplateNode::Constant { bits, value: value_of(comp) })
    } else if t == "core:Ground"@ {
        Some(TemplateNode::Constant { bits, value: 0 })
    } else if t == "core:Power"@ {
        Some(TemplateNode::Constant { bits, value: ones(bits) })
    } else if t == "core:InputPin"@ {
        Some(TemplateNode::InputPin { bits })
    } else if t == "core:OutputPin"@ || t == "core:Probe"@ {
        Some(TemplateNode::OutputPin { bits })
    } else {
        None
    }
}

pub open spec fn bit_extender_of(comp: ComponentInstance) -> Result<TemplateNode, Problem> {
    match (
        attrs::bits_of(comp, "in_width"@, 8),
        attrs::bits_of(comp, "out_width"@, 16),
        extend_mode_of(comp),
    ) {
        (Err(p), _, _) => Err(p),
        (_, Err(p), _) => Err(p),
        (_, _, Err(p)) => Err(p),
        (Ok(in_bits), Ok(out_bits), Ok(mode)) => Ok(
            TemplateNode::BitExtender { in_bits, out_bits, mode },
        ),
    }
}

pub open spec fn transistor_of(comp: ComponentInstance) -> Result<TemplateNode, Problem> {
    match (attrs::width_of(comp), conducts_on_of(comp)) {
        (Err(p), _) => Err(p),
        (_, Err(p)) => Err(p),
        (Ok(bits), Ok(conducts_on)) => Ok(TemplateNode::Transistor { bits, conducts_on }),
    }
}

/// The node of a wiring component, `None` for any other component.
pub open spec fn node_of(comp: ComponentInstance) -> Option<Result<TemplateNode, Problem>> {
    let t = comp.type_@;
    if endpoint(comp, 1) is Some {
        Some(
            match attrs::width_of(comp) {
                Err(p) => Err(p),
                Ok(bits) => Ok(endpoint(comp, bits)->0),
            },
        )
    } else if t == "core:PullResistor"@ {
        Some(
            match pull_of(comp) {
                Err(p) => Err(p),
                Ok(to) => Ok(TemplateNode::PullResistor(to)),
            },
        )
    } else if t == "core:Led"@ {
        Some(Ok(TemplateNode::OutputPin { bits: 1 }))
    } else if t == "core:Button"@ {
        Some(Ok(TemplateNode::InputPin { bits: 1 }))
    } else if t == "core:BitExtender"@ {
        Some(bit_extender_of(comp))
    } else if t == "core:HexDigit"@ {
        Some(Ok(TemplateNode::HexDigit))
    } else if t == "core:Transistor"@ {
        Some(transistor_of(comp))
    } else {
        None
    }
}

fn pull_target(circuit: &Circuit, comp: &ComponentInstance) -> (r: Result<Bit, CompileError>)
    ensures
        attrs::agrees(r, pull_of(*comp), *circuit, *comp),
{
    let raw: &str = text_attr(comp, "pull", "0");
    if text::same(raw, "0") {
        Ok(Bit::Zero)
    } else if text::same(raw, "1") {
        Ok(Bit::One)
    } else if text::same(raw, "X") {
        Ok(Bit::Error)
    } else {
        Err(
            CompileError::InvalidPullTarget {
                circuit: circuit.name.clone(),
                id: comp.id.clone(),
                value: raw.to_owned(),
            },
        )
    }
}

fn value_attr(comp: &ComponentInstance) -> (r: u32)
    ensures
        r == value_of(*comp),
{
    #[verifier::truncate]
    (int_attr(comp, "value", 0) as u32)
}

fn all_ones(bits: u8) -> (r: u32)
    requires
        bits <= 32,
    ensures
        r == ones(bits),
{
    proof {
        power2::lemma2_to64();
    }
    if bits == 32 {
        u32::MAX
    } else {
        proof {
            power2::lemma_pow2_strictly_increases(bits as nat, 32);
            power2::lemma_pow2_pos(bits as nat);
            vstd::bits::lemma_u32_shl_is_mul(1u32, bits as u32);
        }
        (1u32 << (bits as u32)) - 1
    }
}

fn extend_mode_attr(circuit: &Circuit, comp: &ComponentInstance) -> (r: Result<
    ExtendMode,
    CompileError,
>)
    ensures
        attrs::agrees(r, extend_mode_of(*comp), *circuit, *comp),
{
    let raw: &str = text_attr(comp, "type", "zero");
    if text::same(raw, "zero") {
        Ok(ExtendMode::Zero)
    } else if text::same(raw, "one") {
        Ok(ExtendMode::One)
    } else if text::same(raw, "sign") {
        Ok(ExtendMode::Sign)
    } else if text::same(raw, "input") {
        Ok(ExtendMode::Input)
    } else {
        Err(
            CompileError::InvalidExtendType {
                circuit: circuit.name.clone(),
                id: comp.id.clone(),
                value: raw.to_owned(),
            },
        )
    }
}

fn conducts_on_attr(circuit: &Circuit, comp: &ComponentInstance) -> (r: Result<Bit, CompileError>)
    ensures
        attrs::agrees(r, conducts_on_of(*comp), *circuit, *comp),
{
    let raw: &str = text_attr(comp, "type", "p");
    if text::same(raw, "p") {
        Ok(Bit::Zero)
    } else if text::same(raw, "n") {
        Ok(Bit::One)
    } else {
        Err(
            CompileError::InvalidTransistorType {
                circuit: circuit.name.clone(),
                id: comp.id.clone(),
                value: raw.to_owned(),
            },
        )
    }
}

/// Data, and the control input where there is one; one output.
fn bit_extender_geometry(has_extend_pin: bool) -> (r: Geometry)
    ensures
        r.has(seq![(0int, 0int)] + geometry::optional(has_extend_pin, (0, -2)), seq![(2, 0)]),
{
    let mut inputs: Vec<Point> = vec![(0, 0)];
    if has_extend_pin {
        inputs.push((0, -2));
    }
    let r = Geometry { inputs, outputs: vec![(2, 0)] };
    assert(geometry::points(r.inputs@) =~= seq![(0int, 0int)] + geometry::optional(
        has_extend_pin,
        (0, -2),
    ));
    assert(geometry::points(r.outputs@) =~= seq![(2, 0)]);
    r
}

/// The digit and the dot.
fn hex_digit_geometry() -> (r: Geometry)
    ensures
        r.has(seq![(0, 0), (0, -2)], Seq::empty()),
{
    let r = Geometry { inputs: vec![(0, 0), (0, -2)], outputs: Vec::new() };
    assert(geometry::points(r.inputs@) =~= seq![(0, 0), (0, -2)]);
    assert(geometry::points(r.outputs@) =~= Seq::empty());
    r
}

/// Data and gate, and one output.
fn transistor_geometry() -> (r: Geometry)
    ensures
        r.has(seq![(0, 0), (0, -2)], seq![(2, 0)]),
{
    let r = Geometry { inputs: vec![(0, 0), (0, -2)], outputs: vec![(2, 0)] };
    assert(geometry::points(r.inputs@) =~= seq![(0, 0), (0, -2)]);
    assert(geometry::points(r.outputs@) =~= seq![(2, 0)]);
    r
}

fn endpoint_node(comp: &ComponentInstance, bits: u8) -> (r: Option<TemplateNode>)
    requires
        bits <= 32,
    ensures
        r == endpoint(*comp, bits),
{
    let t: &str = comp.type_.as_str();
    if text::same(t, "core:Constant") {
        Some(TemplateNode::Constant { bits, value: value_attr(comp) })
    } else if text::same(t, "core:Ground") {
        Some(TemplateNode::Constant { bits, value: 0 })
    } else if text::same(t, "core:Power") {
        Some(TemplateNode::Constant { bits, value: all_ones(bits) })
    } else if text::same(t, "core:InputPin") {
        Some(TemplateNode::InputPin { bits })
    } else if text::same(t, "core:OutputPin") || text::same(t, "core:Probe") {
        Some(TemplateNode::OutputPin { bits })
    } else {
        None
    }
}

fn compile_bit_extender(circuit: &Circuit, comp: &ComponentInstance) -> (r: Result<
    (TemplateNode, Geometry),
    CompileError,
>)
    ensures
        attrs::node_agrees(r, bit_extender_of(*comp), *circuit, *comp),
{
    let in_bits: u8 = match bits_attr(circuit, comp, "in_width", 8) {
        Ok(v) => v,
        Err(e) => {
            return Err(e);
        },
    };
    let out_bits: u8 = match bits_attr(circuit, comp, "out_width", 16) {
        Ok(v) => v,
        Err(e) => {
            return Err(e);
        },
    };
    let mode: ExtendMode = match extend_mode_attr(circuit, comp) {
        Ok(v) => v,
        Err(e) => {
            return Err(e);
        },
    };
    Ok(
        (
            TemplateNode::BitExtender { in_bits, out_bits, mode },
            bit_extender_geometry(mode == ExtendMode::Input),
        ),
    )
}

fn compile_transistor(circuit: &Circuit, comp: &ComponentInstance) -> (r: Result<
    (TemplateNode, Geometry),
    CompileError,
>)
    ensures
        attrs::node_agrees(r, transistor_of(*comp), *circuit, *comp),
{
    let bits: u8 = match width_attr(circuit, comp) {
        Ok(v) => v,
        Err(e) => {
            return Err(e);
        },
    };
    let conducts_on: Bit = match conducts_on_attr(circuit, comp) {
        Ok(v) => v,
        Err(e) => {
            return Err(e);
        },
    };
    Ok((TemplateNode::Transistor { bits, conducts_on }, transistor_geometry()))
}

/// Compiles a wiring component.
pub(crate) fn compile(circuit: &Circuit, comp: &ComponentInstance) -> (r: Option<
    Result<(TemplateNode, Geometry), CompileError>,
>)
    ensures
        attrs::compiled_as(r, node_of(*comp), *circuit, *comp),
{
    let t: &str = comp.type_.as_str();
    if endpoint_node(comp, 1).is_some() {
        let bits: u8 = match width_attr(circuit, comp) {
            Ok(bits) => bits,
            Err(e) => {
                return Some(Err(e));
            },
        };
        match endpoint_node(comp, bits) {
            Some(TemplateNode::OutputPin { bits }) => Some(
                Ok((TemplateNode::OutputPin { bits }, sink_geometry())),
            ),
            Some(node) => Some(Ok((node, source_geometry()))),
            None => None,
        }
    } else if text::same(t, "core:PullResistor") {
        match pull_target(circuit, comp) {
            Ok(to) => Some(Ok((TemplateNode::PullResistor(to), source_geometry()))),
            Err(e) => Some(Err(e)),
        }
    } else if text::same(t, "core:Led") {
        Some(Ok((TemplateNode::OutputPin { bits: 1 }, sink_geometry())))
    } else if text::same(t, "core:Button") {
        Some(Ok((TemplateNode::InputPin { bits: 1 }, source_geometry())))
    } else if text::same(t, "core:BitExtender") {
        Some(compile_bit_extender(circuit, comp))
    } else if text::same(t, "core:HexDigit") {
        Some(Ok((TemplateNode::HexDigit, hex_digit_geometry())))
    } else if text::same(t, "core:Transistor") {
        Some(compile_transistor(circuit, comp))
    } else {
        None
    }
}

} // verus!
