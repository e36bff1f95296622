//! Reading a component's attributes.
use vstd::prelude::*;
use crate::compile::error::{CompileError, CompileErrorView, Problem};
use crate::compile::geometry::Geometry;
use crate::file_format::{AttrValue, Circuit, ComponentInstance};
use crate::netlist::TemplateNode;

verus! {

/// A result is what it should be: the same value, or the problem reported for this component.
pub open spec fn agrees<T>(
    r: Result<T, CompileError>,
    want: Result<T, Problem>,
    circuit: Circuit,
    comp: ComponentInstance,
) -> bool {
    match (r, want) {
        (Ok(a), Ok(b)) => a == b,
        (Err(e), Err(problem)) => e@ == error_at(circuit, comp, problem),
        _ => false,
    }
}

/// A component's error.
pub open spec fn error_at(
    circuit: Circuit,
    comp: ComponentInstance,
    problem: Problem,
) -> CompileErrorView {
    CompileErrorView { circuit: circuit.name@, id: comp.id@, problem }
}

/// A compiled component is what it should be: the same node with that node's geometry, the
/// problem reported for this component, or `None` where its type belongs elsewhere.
pub open spec fn compiled_as(
    r: Option<Result<(TemplateNode, Geometry), CompileError>>,
    want: Option<Result<TemplateNode, Problem>>,
    circuit: Circuit,
    comp: ComponentInstance,
) -> bool {
    match (r, want) {
        (None, None) => true,
        (Some(r), Some(want)) => node_agrees(r, want, circuit, comp),
        _ => false,
    }
}

/// A compiled component is what it should be: the same node with that node's geometry, or the
/// problem reported for this component.
pub open spec fn node_agrees(
    r: Result<(TemplateNode, Geometry), CompileError>,
    want: Result<TemplateNode, Problem>,
    circuit: Circuit,
    comp: ComponentInstance,
) -> bool {
    match (r, want) {
        (Ok((node, geometry)), Ok(want)) => node == want && geometry.is_of(want),
        (Err(e), Err(problem)) => e@ == error_at(circuit, comp, problem),
        _ => false,
    }
}

/// An integer attribute, or its default where it is missing or no integer.
pub open spec fn int_of(comp: ComponentInstance, key: Seq<char>, default: i64) -> i64 {
    if comp.attrs@.contains_key(key) {
        match comp.attrs@[key] {
            AttrValue::Int(i) => i,
            _ => default,
        }
    } else {
        default
    }
}

/// A text attribute, or its default where it is missing or no text.
pub open spec fn text_of(comp: ComponentInstance, key: Seq<char>, default: Seq<char>) -> Seq<
    char,
> {
    if comp.attrs@.contains_key(key) {
        match comp.attrs@[key] {
            AttrValue::Str(s) => s@,
            _ => default,
        }
    } else {
        default
    }
}

/// A yes-or-no attribute, or its default where it is missing or neither.
pub open spec fn flag_of(comp: ComponentInstance, key: Seq<char>, default: bool) -> bool {
    if comp.attrs@.contains_key(key) {
        match comp.attrs@[key] {
            AttrValue::Bool(b) => b,
            _ => default,
        }
    } else {
        default
    }
}

pub(crate) fn int_attr(comp: &ComponentInstance, key: &str, default: i64) -> (r: i64)
    ensures
        r == int_of(*comp, key@, default),
{
    match comp.attrs.get(key) {
        None => default,
        Some(v) => match v.as_i64() {
            Some(i) => i,
            None => default,
        },
    }
}

pub(crate) fn text_attr<'a>(comp: &'a ComponentInstance, key: &str, default: &'a str) -> (r: &'a str)
    ensures
        r@ == text_of(*comp, key@, default@),
{
    match comp.attrs.get(key) {
        None => default,
        Some(v) => match v.as_str() {
            Some(s) => s,
            None => default,
        },
    }
}

pub(crate) fn flag_attr(comp: &ComponentInstance, key: &str, default: bool) -> (r: bool)
    ensures
        r == flag_of(*comp, key@, default),
{
    match comp.attrs.get(key) {
        None => default,
        Some(v) => match v.as_bool() {
            Some(b) => b,
            None => default,
        },
    }
}

/// A width attribute: within 1 to 32.
pub open spec fn bits_of(comp: ComponentInstance, key: Seq<char>, default: i64) -> Result<
    u8,
    Problem,
> {
    let raw = int_of(comp, key, default);
    if 1 <= raw <= 32 {
        Ok(raw as u8)
    } else {
        Err(Problem::InvalidWidth(raw))
    }
}

/// The `width` of a component, 1 where it is not given.
pub open spec fn width_of(comp: ComponentInstance) -> Result<u8, Problem> {
    bits_of(comp, "width"@, 1)
}

pub(crate) fn bits_attr(circuit: &Circuit, comp: &ComponentInstance, key: &str, default: i64) -> (r:
    Result<u8, CompileError>)
    ensures
        agrees(r, bits_of(*comp, key@, default), *circuit, *comp),
{
    let raw: i64 = int_attr(comp, key, default);
    if 1 <= raw && raw <= 32 {
        Ok(raw as u8)
    } else {
        Err(
            CompileError::InvalidWidth {
                circuit: circuit.name.clone(),
                id: comp.id.clone(),
                value: raw,
            },
        )
    }
}

pub(crate) fn width_attr(circuit: &Circuit, comp: &ComponentInstance) -> (r: Result<
    u8,
    CompileError,
>)
    ensures
        agrees(r, width_of(*comp), *circuit, *comp),
{
    bits_attr(circuit, comp, "width", 1)
}

} // verus!
