//! What can be wrong with a circuit.
use vstd::prelude::*;

verus! {

/// Why a project does not compile: what is wrong, with which component of which circuit.
#[derive(Debug, Clone, PartialEq, Eq)]
pub enum CompileError {
    /// There is no such component type.
    UnknownComponentType { circuit: String, id: String, type_: String },
    /// There is no circuit of that name.
    UnknownSubcircuit { circuit: String, id: String, referenced: String },
    /// `pull` is none of `0`, `1` and `X`.
    InvalidPullTarget { circuit: String, id: String, value: String },
    /// Another component of the circuit has the same id.
    DuplicateComponentId { circuit: String, id: String },
    /// A width is not within 1 to 32.
    InvalidWidth { circuit: String, id: String, value: i64 },
    /// `inputs` is not within 2 to 32.
    InvalidInputCount { circuit: String, id: String, value: i64 },
    /// A phase of a clock is shorter than one tick.
    InvalidClockDuration { circuit: String, id: String, field: &'static str, value: i64 },
    /// `trigger` is not among the triggers that the component has.
    InvalidTrigger { circuit: String, id: String, value: String },
    /// `select` is not within 1 to 5.
    InvalidSelectWidth { circuit: String, id: String, value: i64 },
    /// `disabled` is neither `Z` nor `0`.
    InvalidDisabledOption { circuit: String, id: String, value: String },
    /// `mode` is neither `twosComplement` nor `unsigned`.
    InvalidComparatorMode { circuit: String, id: String, value: String },
    /// `fanout` is not within 1 to 32.
    InvalidFanout { circuit: String, id: String, value: i64 },
    /// `bits` of a splitter has the wrong length, or an entry that is no end.
    InvalidSplitterBits { circuit: String, id: String, reason: String },
    /// `type` of a bit extender is none of `zero`, `one`, `sign` and `input`.
    InvalidExtendType { circuit: String, id: String, value: String },
    /// `bus` is none of `combined`, `asynch` and `separate`.
    InvalidRamBus { circuit: String, id: String, value: String },
    /// `type` of a transistor is neither `p` nor `n`.
    InvalidTransistorType { circuit: String, id: String, value: String },
    /// `matrixcols` or `matrixrows` is not within 1 to 32.
    InvalidDotMatrixSize { circuit: String, id: String, field: &'static str, value: i64 },
    /// `inputtype` is none of `column`, `row` and `select`.
    InvalidDotMatrixInput { circuit: String, id: String, value: String },
    /// `cols` is not within 1 to 120, or `rows` not within 1 to 48.
    InvalidTtyDimension { circuit: String, id: String, field: &'static str, value: i64 },
    /// `buflen` is not within 1 to 256.
    InvalidKeyboardBufferLength { circuit: String, id: String, value: i64 },
}

/// What is wrong with a component.
pub enum Problem {
    UnknownComponentType(Seq<char>),
    UnknownSubcircuit(Seq<char>),
    InvalidPullTarget(Seq<char>),
    DuplicateComponentId,
    InvalidWidth(i64),
    InvalidInputCount(i64),
    InvalidClockDuration(Seq<char>, i64),
    InvalidTrigger(Seq<char>),
    InvalidSelectWidth(i64),
    InvalidDisabledOption(Seq<char>),
    InvalidComparatorMode(Seq<char>),
    InvalidFanout(i64),
    InvalidSplitterBits(Seq<char>),
    InvalidExtendType(Seq<char>),
    InvalidRamBus(Seq<char>),
    InvalidTransistorType(Seq<char>),
    InvalidDotMatrixSize(Seq<char>, i64),
    InvalidDotMatrixInput(Seq<char>),
    InvalidTtyDimension(Seq<char>, i64),
    InvalidKeyboardBufferLength(i64),
}

/// The mathematical content of a [`CompileError`].
pub struct CompileErrorView {
    pub circuit: Seq<char>,
    pub id: Seq<char>,
    pub problem: Problem,
}

impl View for CompileError {
    type V = CompileErrorView;

    open spec fn view(&self) -> CompileErrorView {
        match self {
            CompileError::UnknownComponentType { circuit, id, type_ } => CompileErrorView {
                circuit: circuit@,
                id: id@,
                problem: Problem::UnknownComponentType(type_@),
            },
            CompileError::UnknownSubcircuit { circuit, id, referenced } => CompileErrorView {
                circuit: circuit@,
                id: id@,
                problem: Problem::UnknownSubcircuit(referenced@),
            },
            CompileError::InvalidPullTarget { circuit, id, value } => CompileErrorView {
                circuit: circuit@,
                id: id@,
                problem: Problem::InvalidPullTarget(value@),
            },
            CompileError::DuplicateComponentId { circuit, id } => CompileErrorView {
                circuit: circuit@,
                id: id@,
                problem: Problem::DuplicateComponentId,
            },
            CompileError::InvalidWidth { circuit, id, value } => CompileErrorView {
                circuit: circuit@,
                id: id@,
                problem: Problem::InvalidWidth(*value),
            },
            CompileError::InvalidInputCount { circuit, id, value } => CompileErrorView {
                circuit: circuit@,
                id: id@,
                problem: Problem::InvalidInputCount(*value),
            },
            CompileError::InvalidClockDuration { circuit, id, field, value } => CompileErrorView {
                circuit: circuit@,
                id: id@,
                problem: Problem::InvalidClockDuration(field@, *value),
            },
            CompileError::InvalidTrigger { circuit, id, value } => CompileErrorView {
                circuit: circuit@,
                id: id@,
                problem: Problem::InvalidTrigger(value@),
            },
            CompileError::InvalidSelectWidth { circuit, id, value } => CompileErrorView {
                circuit: circuit@,
                id: id@,
                problem: Problem::InvalidSelectWidth(*value),
            },
            CompileError::InvalidDisabledOption { circuit, id, value } => CompileErrorView {
                circuit: circuit@,
                id: id@,
                problem: Problem::InvalidDisabledOption(value@),
            },
            CompileError::InvalidComparatorMode { circuit, id, value } => CompileErrorView {
                circuit: circuit@,
                id: id@,
                problem: Problem::InvalidComparatorMode(value@),
            },
            CompileError::InvalidFanout { circuit, id, value } => CompileErrorView {
                circuit: circuit@,
                id: id@,
                problem: Problem::InvalidFanout(*value),
            },
            CompileError::InvalidSplitterBits { circuit, id, reason } => CompileErrorView {
                circuit: circuit@,
                id: id@,
                problem: Problem::InvalidSplitterBits(reason@),
            },
            CompileError::InvalidExtendType { circuit, id, value } => CompileErrorView {
                circuit: circuit@,
                id: id@,
                problem: Problem::InvalidExtendType(value@),
            },
            CompileError::InvalidRamBus { circuit, id, value } => CompileErrorView {
                circuit: circuit@,
                id: id@,
                problem: Problem::InvalidRamBus(value@),
            },
            CompileError::InvalidTransistorType { circuit, id, value } => CompileErrorView {
                circuit: circuit@,
                id: id@,
                problem: Problem::InvalidTransistorType(value@),
            },
            CompileError::InvalidDotMatrixSize { circuit, id, field, value } => CompileErrorView {
                circuit: circuit@,
                id: id@,
                problem: Problem::InvalidDotMatrixSize(field@, *value),
            },
            CompileError::InvalidDotMatrixInput { circuit, id, value } => CompileErrorView {
                circuit: circuit@,
                id: id@,
                problem: Problem::InvalidDotMatrixInput(value@),
            },
            CompileError::InvalidTtyDimension { circuit, id, field, value } => CompileErrorView {
                circuit: circuit@,
                id: id@,
                problem: Problem::InvalidTtyDimension(field@, *value),
            },
            CompileError::InvalidKeyboardBufferLength { circuit, id, value } => CompileErrorView {
                circuit: circuit@,
                id: id@,
                problem: Problem::InvalidKeyboardBufferLength(*value),
            },
        }
    }
}

} // verus!
