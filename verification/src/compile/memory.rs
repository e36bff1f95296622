//! Compiles the clocked components.
use vstd::prelude::*;
use crate::compile::attrs;
use crate::compile::attrs::{int_attr, text_attr, width_attr};
use crate::compile::error::{CompileError, Problem};
use crate::compile::geometry;
use crate::compile::geometry::{source_geometry, Geometry};
use crate::file_format::{Circuit, ComponentInstance};
use crate::netlist::TemplateNode;
use crate::components::Trigger;
use crate::text;

verus! {

/// The length of a phase of a clock, 1 where it is not given.
pub open spec fn clock_duration_of(comp: ComponentInstance, key: Seq<char>) -> Result<u64, Problem> {
    let raw = attrs::int_of(comp, key, 1);
    if raw >= 1 {
        Ok(raw as u64)
    } else {
        Err(Problem::InvalidClockDuration(key, raw))
    }
}

/// The `trigger` of a register.
pub open spec fn trigger_of(comp: ComponentInstance) -> Result<Trigger, Problem> {
    let raw = attrs::text_of(comp, "trigger"@, "rising"@);
    if raw == "rising"@ {
        Ok(Trigger::Rising)
    } else if raw == "falling"@ {
        Ok(Trigger::Falling)
    } else if raw == "high"@ {
        Ok(Trigger::High)
    } else if raw == "low"@ {
        Ok(Trigger::Low)
    } else {
        Err(Problem::InvalidTrigger(raw))
    }
}

/// The node of a clocked component, `None` for any other component.
pub open spec fn node_of(comp: ComponentInstance) -> Option<Result<TemplateNode, Problem>> {
    let t = comp.type_@;
    if t == "core:Clock"@ {
        Some(
            match (
                clock_duration_of(comp, "highDuration"@),
                clock_duration_of(comp, "lowDuration"@),
            ) {
                (Err(p), _) => Err(p),
                (_, Err(p)) => Err(p),
                (Ok(high), Ok(low)) => Ok(TemplateNode::Clock { high, low }),
            },
        )
    } else if t == "core:Register"@ {
        Some(
            match (attrs::width_of(comp), trigger_of(comp)) {
                (Err(p), _) => Err(p),
                (_, Err(p)) => Err(p),
                (Ok(bits), Ok(trigger)) => Ok(TemplateNode::Register { bits, trigger }),
            },
        )
    } else {
        None
    }
}

fn clock_duration_attr(circuit: &Circuit, comp: &ComponentInstance, key: &'static str) -> (r: Result<
    u64,
    CompileError,
>)
    ensures
        attrs::agrees(r, clock_duration_of(*comp, key@), *circuit, *comp),
{
    let raw: i64 = int_attr(comp, key, 1);
    if raw >= 1 {
        Ok(raw as u64)
    } else {
        Err(
            CompileError::InvalidClockDuration {
                circuit: circuit.name.clone(),
                id: comp.id.clone(),
                field: key,
                value: raw,
            },
        )
    }
}

fn trigger_attr(circuit: &Circuit, comp: &ComponentInstance) -> (r: Result<Trigger, CompileError>)
    ensures
        attrs::agrees(r, trigger_of(*comp), *circuit, *comp),
{
    let raw: &str = text_attr(comp, "trigger", "rising");
    if text::same(raw, "rising") {
        Ok(Trigger::Rising)
    } else if text::same(raw, "falling") {
        Ok(Trigger::Falling)
    } else if text::same(raw, "high") {
        Ok(Trigger::High)
    } else if text::same(raw, "low") {
        Ok(Trigger::Low)
    } else {
        Err(
            CompileError::InvalidTrigger {
                circuit: circuit.name.clone(),
                id: comp.id.clone(),
                value: raw.to_owned(),
            },
        )
    }
}

/// Data, clock, clear and enable inputs, and one output.
fn register_geometry() -> (r: Geometry)
    ensures
        r.has(seq![(0, 0), (1, 2), (2, 2), (3, 2)], seq![(4, 0)]),
{
    let r = Geometry { inputs: vec![(0, 0), (1, 2), (2, 2), (3, 2)], outputs: vec![(4, 0)] };
    assert(geometry::points(r.inputs@) =~= seq![(0, 0), (1, 2), (2, 2), (3, 2)]);
    assert(geometry::points(r.outputs@) =~= seq![(4, 0)]);
    r
}

fn compile_clock(circuit: &Circuit, comp: &ComponentInstance) -> (r: Result<
    (TemplateNode, Geometry),
    CompileError,
>)
    requires
        comp.type_@ == "core:Clock"@,
    ensures
        attrs::node_agrees(r, node_of(*comp)->0, *circuit, *comp),
{
    let high: u64 = match clock_duration_attr(circuit, comp, "highDuration") {
        Ok(v) => v,
        Err(e) => {
            return Err(e);
        },
    };
    let low: u64 = match clock_duration_attr(circuit, comp, "lowDuration") {
        Ok(v) => v,
        Err(e) => {
            return Err(e);
        },
    };
    Ok((TemplateNode::Clock { high, low }, source_geometry()))
}

fn compile_register(circuit: &Circuit, comp: &ComponentInstance) -> (r: Result<
    (TemplateNode, Geometry),
    CompileError,
>)
    requires
        comp.type_@ == "core:Register"@,
        comp.type_@ != "core:Clock"@,
    ensures
        attrs::node_agrees(r, node_of(*comp)->0, *circuit, *comp),
{
    let bits: u8 = match width_attr(circuit, comp) {
        Ok(v) => v,
        Err(e) => {
            return Err(e);
        },
    };
    let trigger: Trigger = match trigger_attr(circuit, comp) {
        Ok(v) => v,
        Err(e) => {
            return Err(e);
        },
    };
    Ok((TemplateNode::Register { bits, trigger }, register_geometry()))
}

/// Compiles a clocked component.
pub(crate) fn compile(circuit: &Circuit, comp: &ComponentInstance) -> (r: Option<
    Result<(TemplateNode, Geometry), CompileError>,
>)
    ensures
        attrs::compiled_as(r, node_of(*comp), *circuit, *comp),
{
    let t: &str = comp.type_.as_str();
    if text::same(t, "core:Clock") {
        Some(compile_clock(circuit, comp))
    } else if text::same(t, "core:Register") {
        Some(compile_register(circuit, comp))
    } else {
        None
    }
}

} // verus!
