//! Compiles multiplexers, demultiplexers, decoders and priority encoders.
use vstd::prelude::*;
use crate::compile::attrs;
use crate::compile::attrs::{flag_attr, int_attr, text_attr, width_attr};
use crate::compile::error::{CompileError, Problem};
use crate::compile::geometry;
use crate::compile::geometry::{column_points, Geometry, Point};
use crate::components::plexers::line_count;
use crate::file_format::{Circuit, ComponentInstance};
use crate::netlist::TemplateNode;
use crate::text;

verus! {

/// The width of the `select` input, 1 where it is not given.
pub open spec fn select_of(comp: ComponentInstance) -> Result<u8, Problem> {
    let raw = attrs::int_of(comp, "select"@, 1);
    if 1 <= raw <= 5 {
        Ok(raw as u8)
    } else {
        Err(Problem::InvalidSelectWidth(raw))
    }
}

/// There is an `enable` input unless the attribute says otherwise.
pub open spec fn enable_of(comp: ComponentInstance) -> bool {
    attrs::flag_of(comp, "enable"@, true)
}

/// Whether the outputs are zero, rather than floating, where the component is `disabled`.
pub open spec fn disabled_zero_of(comp: ComponentInstance) -> Result<bool, Problem> {
    let raw = attrs::text_of(comp, "disabled"@, "Z"@);
    if raw == "Z"@ {
        Ok(false)
    } else if raw == "0"@ {
        Ok(true)
    } else {
        Err(Problem::InvalidDisabledOption(raw))
    }
}

/// Outputs that are not selected float only where `tristate` says so.
pub open spec fn tristate_of(comp: ComponentInstance) -> bool {
    attrs::flag_of(comp, "tristate"@, false)
}

pub open spec fn mux_of(comp: ComponentInstance) -> Result<TemplateNode, Problem> {
    match (attrs::width_of(comp), select_of(comp), disabled_zero_of(comp)) {
        (Err(p), _, _) => Err(p),
        (_, Err(p), _) => Err(p),
        (_, _, Err(p)) => Err(p),
        (Ok(bits), Ok(select_bits), Ok(disabled_zero)) => Ok(
            TemplateNode::Mux { bits, select_bits, has_enable: enable_of(comp), disabled_zero },
        ),
    }
}

pub open spec fn demux_of(comp: ComponentInstance) -> Result<TemplateNode, Problem> {
    match (attrs::width_of(comp), select_of(comp), disabled_zero_of(comp)) {
        (Err(p), _, _) => Err(p),
        (_, Err(p), _) => Err(p),
        (_, _, Err(p)) => Err(p),
        (Ok(bits), Ok(select_bits), Ok(disabled_zero)) => Ok(
            TemplateNode::Demux {
                bits,
                select_bits,
                has_enable: enable_of(comp),
                disabled_zero,
                tristate: tristate_of(comp),
            },
        ),
    }
}

pub open spec fn decoder_of(comp: ComponentInstance) -> Result<TemplateNode, Problem> {
    match (select_of(comp), disabled_zero_of(comp)) {
        (Err(p), _) => Err(p),
        (_, Err(p)) => Err(p),
        (Ok(select_bits), Ok(disabled_zero)) => Ok(
            TemplateNode::Decoder {
                select_bits,
                has_enable: enable_of(comp),
                disabled_zero,
                tristate: tristate_of(comp),
            },
        ),
    }
}

pub open spec fn priority_encoder_of(comp: ComponentInstance) -> Result<TemplateNode, Problem> {
    match (select_of(comp), disabled_zero_of(comp)) {
        (Err(p), _) => Err(p),
        (_, Err(p)) => Err(p),
        (Ok(select_bits), Ok(disabled_zero)) => Ok(
            TemplateNode::PriorityEncoder { select_bits, disabled_zero },
        ),
    }
}

/// The node of a plexer, `None` for any other component.
pub open spec fn node_of(comp: ComponentInstance) -> Option<Result<TemplateNode, Problem>> {
    let t = comp.type_@;
    if t == "core:Multiplexer"@ {
        Some(mux_of(comp))
    } else if t == "core:Demultiplexer"@ {
        Some(demux_of(comp))
    } else if t == "core:Decoder"@ {
        Some(decoder_of(comp))
    } else if t == "core:PriorityEncoder"@ {
        Some(priority_encoder_of(comp))
    } else {
        None
    }
}

fn select_attr(circuit: &Circuit, comp: &ComponentInstance) -> (r: Result<u8, CompileError>)
    ensures
        attrs::agrees(r, select_of(*comp), *circuit, *comp),
{
    let raw: i64 = int_attr(comp, "select", 1);
    if 1 <= raw && raw <= 5 {
        Ok(raw as u8)
    } else {
        Err(
            CompileError::InvalidSelectWidth {
                circuit: circuit.name.clone(),
                id: comp.id.clone(),
                value: raw,
            },
        )
    }
}

fn enable_attr(comp: &ComponentInstance) -> (r: bool)
    ensures
        r == enable_of(*comp),
{
    flag_attr(comp, "enable", true)
}

fn disabled_zero_attr(circuit: &Circuit, comp: &ComponentInstance) -> (r: Result<
    bool,
    CompileError,
>)
    ensures
        attrs::agrees(r, disabled_zero_of(*comp), *circuit, *comp),
{
    let raw: &str = text_attr(comp, "disabled", "Z");
    if text::same(raw, "Z") {
        Ok(false)
    } else if text::same(raw, "0") {
        Ok(true)
    } else {
        Err(
            CompileError::InvalidDisabledOption {
                circuit: circuit.name.clone(),
                id: comp.id.clone(),
                value: raw.to_owned(),
            },
        )
    }
}

fn tristate_attr(comp: &ComponentInstance) -> (r: bool)
    ensures
        r == tristate_of(*comp),
{
    flag_attr(comp, "tristate", false)
}

/// Data inputs, select, and enable where there is one; one output.
fn mux_geometry(n: usize, has_enable: bool) -> (r: Geometry)
    ensures
        r.has(
            geometry::column(0, n as nat) + seq![(1int, -1int)] + geometry::optional(
                has_enable,
                (1, -2),
            ),
            seq![(3, 0)],
        ),
{
    let mut inputs: Vec<Point> = column_points(0, n);
    let ghost data = inputs@;
    inputs.push((1, -1));
    if has_enable {
        inputs.push((1, -2));
    }
    let r = Geometry { inputs, outputs: vec![(3, 0)] };
    proof {
        assert(geometry::points(data).len() == n);
        assert forall|i: int| 0 <= i < n implies geometry::points(r.inputs@)[i] == geometry::column(
            0,
            n as nat,
        )[i] by {
            assert(geometry::points(data)[i] == geometry::column(0, n as nat)[i]);
            assert(r.inputs@[i] == data[i]);
        }
        assert(geometry::points(r.inputs@) =~= geometry::column(0, n as nat) + seq![
            (1int, -1int),
        ] + geometry::optional(has_enable, (1, -2)));
        assert(geometry::points(r.outputs@) =~= seq![(3, 0)]);
    }
    r
}

/// Select, enable where there is one, and data; outputs below each other.
fn demux_geometry(n: usize, has_enable: bool) -> (r: Geometry)
    ensures
        r.has(
            seq![(0int, -1int)] + geometry::optional(has_enable, (0, -2)) + seq![(0int, 0int)],
            geometry::column(3, n as nat),
        ),
{
    let mut inputs: Vec<Point> = vec![(0, -1)];
    if has_enable {
        inputs.push((0, -2));
    }
    inputs.push((0, 0));
    let r = Geometry { inputs, outputs: column_points(3, n) };
    assert(geometry::points(r.inputs@) =~= seq![(0int, -1int)] + geometry::optional(
        has_enable,
        (0, -2),
    ) + seq![(0int, 0int)]);
    r
}

/// As a demultiplexer, without the data input.
fn decoder_geometry(n: usize, has_enable: bool) -> (r: Geometry)
    ensures
        r.has(
            seq![(0int, -1int)] + geometry::optional(has_enable, (0, -2)),
            geometry::column(3, n as nat),
        ),
{
    let mut inputs: Vec<Point> = vec![(0, -1)];
    if has_enable {
        inputs.push((0, -2));
    }
    let r = Geometry { inputs, outputs: column_points(3, n) };
    assert(geometry::points(r.inputs@) =~= seq![(0int, -1int)] + geometry::optional(
        has_enable,
        (0, -2),
    ));
    r
}

/// Data inputs and, below them, enable; three outputs: the number, what is enabled in turn,
/// and whether anything is selected.
fn priority_encoder_geometry(n: usize) -> (r: Geometry)
    requires
        n < usize::MAX,
    ensures
        r.has(geometry::column(0, n as nat + 1), geometry::column(3, 3)),
{
    Geometry { inputs: column_points(0, n + 1), outputs: column_points(3, 3) }
}

fn compile_mux(circuit: &Circuit, comp: &ComponentInstance) -> (r: Result<
    (TemplateNode, Geometry),
    CompileError,
>)
    ensures
        attrs::node_agrees(r, mux_of(*comp), *circuit, *comp),
{
    let bits: u8 = match width_attr(circuit, comp) {
        Ok(v) => v,
        Err(e) => {
            return Err(e);
        },
    };
    let select_bits: u8 = match select_attr(circuit, comp) {
        Ok(v) => v,
        Err(e) => {
            return Err(e);
        },
    };
    let has_enable: bool = enable_attr(comp);
    let disabled_zero: bool = match disabled_zero_attr(circuit, comp) {
        Ok(v) => v,
        Err(e) => {
            return Err(e);
        },
    };
    let n: usize = line_count(select_bits);
    Ok(
        (
            TemplateNode::Mux { bits, select_bits, has_enable, disabled_zero },
            mux_geometry(n, has_enable),
        ),
    )
}

fn compile_demux(circuit: &Circuit, comp: &ComponentInstance) -> (r: Result<
    (TemplateNode, Geometry),
    CompileError,
>)
    ensures
        attrs::node_agrees(r, demux_of(*comp), *circuit, *comp),
{
    let bits: u8 = match width_attr(circuit, comp) {
        Ok(v) => v,
        Err(e) => {
            return Err(e);
        },
    };
    let select_bits: u8 = match select_attr(circuit, comp) {
        Ok(v) => v,
        Err(e) => {
            return Err(e);
        },
    };
    let has_enable: bool = enable_attr(comp);
    let disabled_zero: bool = match disabled_zero_attr(circuit, comp) {
        Ok(v) => v,
        Err(e) => {
            return Err(e);
        },
    };
    let tristate: bool = tristate_attr(comp);
    let n: usize = line_count(select_bits);
    Ok(
        (
            TemplateNode::Demux { bits, select_bits, has_enable, disabled_zero, tristate },
            demux_geometry(n, has_enable),
        ),
    )
}

fn compile_decoder(circuit: &Circuit, comp: &ComponentInstance) -> (r: Result<
    (TemplateNode, Geometry),
    CompileError,
>)
    ensures
        attrs::node_agrees(r, decoder_of(*comp), *circuit, *comp),
{
    let select_bits: u8 = match select_attr(circuit, comp) {
        Ok(v) => v,
        Err(e) => {
            return Err(e);
        },
    };
    let has_enable: bool = enable_attr(comp);
    let disabled_zero: bool = match disabled_zero_attr(circuit, comp) {
        Ok(v) => v,
        Err(e) => {
            return Err(e);
        },
    };
    let tristate: bool = tristate_attr(comp);
    let n: usize = line_count(select_bits);
    Ok(
        (
            TemplateNode::Decoder { select_bits, has_enable, disabled_zero, tristate },
            decoder_geometry(n, has_enable),
        ),
    )
}

fn compile_priority_encoder(circuit: &Circuit, comp: &ComponentInstance) -> (r: Result<
    (TemplateNode, Geometry),
    CompileError,
>)
    ensures
        attrs::node_agrees(r, priority_encoder_of(*comp), *circuit, *comp),
{
    let select_bits: u8 = match select_attr(circuit, comp) {
        Ok(v) => v,
        Err(e) => {
            return Err(e);
        },
    };
    let disabled_zero: bool = match disabled_zero_attr(circuit, comp) {
        Ok(v) => v,
        Err(e) => {
            return Err(e);
        },
    };
    let n: usize = line_count(select_bits);
    Ok(
        (
            TemplateNode::PriorityEncoder { select_bits, disabled_zero },
            priority_encoder_geometry(n),
        ),
    )
}

/// Compiles a plexer.
pub(crate) fn compile(circuit: &Circuit, comp: &ComponentInstance) -> (r: Option<
    Result<(TemplateNode, Geometry), CompileError>,
>)
    ensures
        attrs::compiled_as(r, node_of(*comp), *circuit, *comp),
{
    let t: &str = comp.type_.as_str();
    if text::same(t, "core:Multiplexer") {
        Some(compile_mux(circuit, comp))
    } else if text::same(t, "core:Demultiplexer") {
        Some(compile_demux(circuit, comp))
    } else if text::same(t, "core:Decoder") {
        Some(compile_decoder(circuit, comp))
    } else if text::same(t, "core:PriorityEncoder") {
        Some(compile_priority_encoder(circuit, comp))
    } else {
        None
    }
}

} // verus!
