//! The component interface: the values that travel on wires and the contract that every
//! component of a simulation fulfils.
//!
//! The interface has two independent halves. `eval` and the pin counts are the simulation
//! half; `actions` and `readouts` are the interactive half, used by test scripts. A component
//! that needs only the first half keeps the defaults of the second.
use vstd::prelude::*;
use vstd::string::StringExecFns;
use crate::text;

verus! {

/// A single bit's value. There are four states: besides the two levels, a point can be left
/// undriven, or be driven to both levels at once.
#[derive(Debug, Clone, Copy, PartialEq, Eq, Structural)]
pub enum Bit {
    Zero,
    One,
    /// Nothing drives this point. The identity of [`Bit::combine`].
    Unknown,
    /// Two or more drivers disagree on this point: a short circuit.
    Error,
}

/// What a point reads when two drivers feed it.
pub open spec fn combined(a: Bit, b: Bit) -> Bit {
    if a == Bit::Unknown {
        b
    } else if b == Bit::Unknown || a == b {
        a
    } else {
        Bit::Error
    }
}

/// Conjunction of two bits: `Zero` dominates, two `One`s give `One`.
pub open spec fn conj(a: Bit, b: Bit) -> Bit {
    if a == Bit::Zero || b == Bit::Zero {
        Bit::Zero
    } else if a == Bit::One && b == Bit::One {
        Bit::One
    } else {
        Bit::Error
    }
}

/// Disjunction of two bits: `One` dominates, two `Zero`s give `Zero`.
pub open spec fn disj(a: Bit, b: Bit) -> Bit {
    if a == Bit::One || b == Bit::One {
        Bit::One
    } else if a == Bit::Zero && b == Bit::Zero {
        Bit::Zero
    } else {
        Bit::Error
    }
}

/// Negation of a bit: only the two levels can be negated.
pub open spec fn negated(a: Bit) -> Bit {
    match a {
        Bit::Zero => Bit::One,
        Bit::One => Bit::Zero,
        _ => Bit::Error,
    }
}

/// Whether a bit is one of the two levels.
pub open spec fn is_level(a: Bit) -> bool {
    a == Bit::Zero || a == Bit::One
}

impl Bit {
    /// What a point reads when several drivers feed it: `Unknown` is the identity, agreement
    /// passes through, disagreement is `Error`. Fold over the drivers starting from `Unknown`.
    pub fn combine(self, other: Bit) -> (r: Bit)
        ensures
            r == combined(self, other),
    {
        if self == Bit::Unknown {
            other
        } else if other == Bit::Unknown {
            self
        } else if self == other {
            self
        } else {
            Bit::Error
        }
    }

    /// Conjunction: `Zero` is dominant whatever the other side is.
    pub fn and(self, other: Bit) -> (r: Bit)
        ensures
            r == conj(self, other),
    {
        if self == Bit::Zero || other == Bit::Zero {
            Bit::Zero
        } else if self == Bit::One && other == Bit::One {
            Bit::One
        } else {
            Bit::Error
        }
    }

    /// Disjunction: `One` is dominant whatever the other side is.
    pub fn or(self, other: Bit) -> (r: Bit)
        ensures
            r == disj(self, other),
    {
        if self == Bit::One || other == Bit::One {
            Bit::One
        } else if self == Bit::Zero && other == Bit::Zero {
            Bit::Zero
        } else {
            Bit::Error
        }
    }

    /// Negation: an undefined input gives `Error`, not `Unknown`.
    pub fn not(self) -> (r: Bit)
        ensures
            r == negated(self),
    {
        match self {
            Bit::One => Bit::Zero,
            Bit::Zero => Bit::One,
            Bit::Unknown | Bit::Error => Bit::Error,
        }
    }
}

/// `combine` has `Unknown` as its identity, is idempotent and is absorbed by `Error`.
pub proof fn combine_identity(a: Bit)
    ensures
        combined(Bit::Unknown, a) == a,
        combined(a, Bit::Unknown) == a,
        combined(a, a) == a,
        combined(a, Bit::Error) == Bit::Error,
{
}

/// The order in which two drivers of a point are combined does not matter.
pub proof fn combine_commutes(a: Bit, b: Bit)
    ensures
        combined(a, b) == combined(b, a),
{
}

/// The grouping in which three drivers of a point are combined does not matter.
pub proof fn combine_associates(a: Bit, b: Bit, c: Bit)
    ensures
        combined(combined(a, b), c) == combined(a, combined(b, c)),
{
}

/// `Zero` dominates `and`, and `One` dominates `or`, whatever the other operand is.
pub proof fn dominant_levels(a: Bit)
    ensures
        conj(Bit::Zero, a) == Bit::Zero,
        conj(a, Bit::Zero) == Bit::Zero,
        disj(Bit::One, a) == Bit::One,
        disj(a, Bit::One) == Bit::One,
{
}

/// `and` and `or` commute and associate, also on undefined operands.
pub proof fn and_or_commute_and_associate(a: Bit, b: Bit, c: Bit)
    ensures
        conj(a, b) == conj(b, a),
        disj(a, b) == disj(b, a),
        conj(conj(a, b), c) == conj(a, conj(b, c)),
        disj(disj(a, b), c) == disj(a, disj(b, c)),
{
}

/// De Morgan's laws hold on all four states.
pub proof fn de_morgan(a: Bit, b: Bit)
    ensures
        negated(conj(a, b)) == disj(negated(a), negated(b)),
        negated(disj(a, b)) == conj(negated(a), negated(b)),
{
}

/// Negating twice gives a level back, and turns everything else into `Error`.
pub proof fn double_negation(a: Bit)
    ensures
        is_level(a) ==> negated(negated(a)) == a,
        !is_level(a) ==> negated(negated(a)) == Bit::Error,
{
}

/// A point with two drivers: undriven exactly where both leave it so, a level exactly where one
/// of them puts that level on it and the other the same or nothing, and an error otherwise.
pub proof fn driven_to(a: Bit, b: Bit)
    ensures
        combined(a, b) == Bit::Unknown <==> a == Bit::Unknown && b == Bit::Unknown,
        combined(a, b) == Bit::Zero <==> (a == Bit::Zero && (b == Bit::Zero || b == Bit::Unknown))
            || (b == Bit::Zero && a == Bit::Unknown),
        combined(a, b) == Bit::One <==> (a == Bit::One && (b == Bit::One || b == Bit::Unknown)) || (
        b == Bit::One && a == Bit::Unknown),
{
}

/// When `and`, `or` and `not` give a level: `and` gives `One` only for two, `or` gives `Zero`
/// only for two, and the other level wherever it occurs; `not` swaps the levels. What is left
/// is an error, never undriven.
pub proof fn levels_of_operations(a: Bit, b: Bit)
    ensures
        conj(a, b) == Bit::One <==> a == Bit::One && b == Bit::One,
        conj(a, b) == Bit::Zero <==> a == Bit::Zero || b == Bit::Zero,
        conj(a, b) != Bit::Unknown,
        disj(a, b) == Bit::Zero <==> a == Bit::Zero && b == Bit::Zero,
        disj(a, b) == Bit::One <==> a == Bit::One || b == Bit::One,
        disj(a, b) != Bit::Unknown,
        negated(a) == Bit::One <==> a == Bit::Zero,
        negated(a) == Bit::Zero <==> a == Bit::One,
        negated(a) != Bit::Unknown,
        is_level(a) <==> a != Bit::Unknown && a != Bit::Error,
{
}

/// One pin's value: a vector of bits, bit 0 the least significant.
pub type Signal = Vec<Bit>;

/// Argument of an action, or result of a readout.
#[derive(Debug, Clone, PartialEq)]
pub enum Value {
    Bool(bool),
    Int(i64),
    Bits(Vec<Bit>),
}

/// The mathematical content of a [`Value`].
pub enum ValueView {
    Bool(bool),
    Int(i64),
    Bits(Seq<Bit>),
}

impl View for Value {
    type V = ValueView;

    open spec fn view(&self) -> ValueView {
        match self {
            Value::Bool(b) => ValueView::Bool(*b),
            Value::Int(i) => ValueView::Int(*i),
            Value::Bits(bits) => ValueView::Bits(bits@),
        }
    }
}

/// The mathematical content of an optional action argument.
pub open spec fn arg_view(arg: Option<Value>) -> Option<ValueView> {
    match arg {
        Some(v) => Some(v@),
        None => None,
    }
}

/// Why an action was not performed.
#[derive(Debug, Clone, PartialEq, Eq)]
pub enum ActionError {
    UnknownAction(String),
    InvalidArg { action: String, reason: String },
}

/// The mathematical content of an [`ActionError`].
pub enum ActionErrorView {
    UnknownAction(Seq<char>),
    InvalidArg { action: Seq<char>, reason: Seq<char> },
}

impl View for ActionError {
    type V = ActionErrorView;

    open spec fn view(&self) -> ActionErrorView {
        match self {
            ActionError::UnknownAction(name) => ActionErrorView::UnknownAction(name@),
            ActionError::InvalidArg { action, reason } => ActionErrorView::InvalidArg {
                action: action@,
                reason: reason@,
            },
        }
    }
}

/// The mathematical content of an action's outcome.
pub open spec fn action_outcome(r: Result<(), ActionError>) -> Result<(), ActionErrorView> {
    match r {
        Ok(()) => Ok(()),
        Err(e) => Err(e@),
    }
}

/// Why a readout has no value.
#[derive(Debug, Clone, PartialEq, Eq)]
pub enum ReadoutError {
    UnknownReadout(String),
}

impl View for ReadoutError {
    type V = Seq<char>;

    /// The name that was asked for.
    open spec fn view(&self) -> Seq<char> {
        match self {
            ReadoutError::UnknownReadout(name) => name@,
        }
    }
}

/// The mathematical content of a readout's outcome: a value, or the name that is unknown.
pub open spec fn readout_outcome(r: Result<Value, ReadoutError>) -> Result<ValueView, Seq<char>> {
    match r {
        Ok(v) => Ok(v@),
        Err(e) => Err(e@),
    }
}

/// The mathematical contents of a list of signals.
pub open spec fn signals(s: Seq<Signal>) -> Seq<Seq<Bit>> {
    Seq::new(s.len(), |i: int| s[i]@)
}

/// The names in a list of string slices.
pub open spec fn names(list: Seq<&'static str>) -> Seq<Seq<char>> {
    Seq::new(list.len(), |i: int| list[i]@)
}

pub open spec fn bit_name(b: Bit) -> Seq<char> {
    match b {
        Bit::Zero => "Zero"@,
        Bit::One => "One"@,
        Bit::Unknown => "Unknown"@,
        Bit::Error => "Error"@,
    }
}

/// The names of the first `k` bits, separated by commas.
pub open spec fn bit_list(bits: Seq<Bit>, k: nat) -> Seq<char>
    decreases k,
{
    if k == 0 {
        Seq::empty()
    } else if k == 1 {
        bit_name(bits[0])
    } else {
        bit_list(bits, (k - 1) as nat) + ", "@ + bit_name(bits[k - 1])
    }
}

impl ValueView {
    /// How a value reads in a message.
    pub open spec fn text(self) -> Seq<char> {
        match self {
            ValueView::Bool(true) => "Bool(true)"@,
            ValueView::Bool(false) => "Bool(false)"@,
            ValueView::Int(i) => "Int("@ + text::decimal_int(i as int) + ")"@,
            ValueView::Bits(bits) => "Bits(["@ + bit_list(bits, bits.len()) + "])"@,
        }
    }
}

/// How an optional action argument reads in a message.
pub open spec fn arg_text(arg: Option<ValueView>) -> Seq<char> {
    match arg {
        Some(v) => "Some("@ + v.text() + ")"@,
        None => "None"@,
    }
}

impl ActionErrorView {
    /// How a refused action reads in a message.
    pub open spec fn text(self) -> Seq<char> {
        match self {
            ActionErrorView::UnknownAction(name) => "UnknownAction("@ + text::quoted(name) + ")"@,
            ActionErrorView::InvalidArg { action, reason } => "InvalidArg { action: "@
                + text::quoted(action) + ", reason: "@ + text::quoted(reason) + " }"@,
        }
    }
}

/// How an unknown readout reads in a message.
pub open spec fn unknown_readout_text(name: Seq<char>) -> Seq<char> {
    "UnknownReadout("@ + text::quoted(name) + ")"@
}

impl Bit {
    fn name(self) -> (r: &'static str)
        ensures
            r@ == bit_name(self),
    {
        match self {
            Bit::Zero => "Zero",
            Bit::One => "One",
            Bit::Unknown => "Unknown",
            Bit::Error => "Error",
        }
    }
}

impl Value {
    /// The value as it reads in a message.
    pub fn to_text(&self) -> (r: String)
        ensures
            r@ == self@.text(),
    {
        let mut out: String = String::new();
        match self {
            Value::Bool(b) => {
                if *b {
                    out.append("Bool(true)");
                    assert(out@ =~= "Bool(true)"@);
                } else {
                    out.append("Bool(false)");
                    assert(out@ =~= "Bool(false)"@);
                }
            },
            Value::Int(i) => {
                out.append("Int(");
                text::push_int(&mut out, *i);
                out.append(")");
                assert(out@ =~= self@.text());
            },
            Value::Bits(bits) => {
                out.append("Bits([");
                for k in 0..bits.len()
                    invariant
                        out@ == "Bits(["@ + bit_list(bits@, k as nat),
                {
                    let ghost before = out@;
                    if k > 0 {
                        out.append(", ");
                    }
                    out.append(bits[k].name());
                    assert(out@ =~= "Bits(["@ + bit_list(bits@, (k + 1) as nat));
                }
                out.append("])");
                assert(out@ =~= self@.text());
            },
        }
        out
    }
}

/// An optional action argument as it reads in a message.
pub fn render_arg(arg: &Option<Value>) -> (r: String)
    ensures
        r@ == arg_text(arg_view(*arg)),
{
    let mut out: String = String::new();
    match arg {
        Some(v) => {
            out.append("Some(");
            out.append(v.to_text().as_str());
            out.append(")");
        },
        None => {
            out.append("None");
        },
    }
    assert(out@ =~= arg_text(arg_view(*arg)));
    out
}

impl ActionError {
    /// The error as it reads in a message.
    pub fn to_text(&self) -> (r: String)
        ensures
            r@ == self@.text(),
    {
        let mut out: String = String::new();
        match self {
            ActionError::UnknownAction(name) => {
                out.append("UnknownAction(");
                out.append(text::quote(name.as_str()).as_str());
                out.append(")");
            },
            ActionError::InvalidArg { action, reason } => {
                out.append("InvalidArg { action: ");
                out.append(text::quote(action.as_str()).as_str());
                out.append(", reason: ");
                out.append(text::quote(reason.as_str()).as_str());
                out.append(" }");
            },
        }
        assert(out@ =~= self@.text());
        out
    }
}

impl ReadoutError {
    /// The error as it reads in a message.
    pub fn to_text(&self) -> (r: String)
        ensures
            r@ == unknown_readout_text(self@),
    {
        let ReadoutError::UnknownReadout(name) = self;
        let mut out: String = String::new();
        out.append("UnknownReadout(");
        out.append(text::quote(name.as_str()).as_str());
        out.append(")");
        assert(out@ =~= unknown_readout_text(self@));
        out
    }
}

/// A component: something with input pins, output pins and, where it needs one, a state.
///
/// The three predicates say when a component's methods may be called; where a component does
/// not say otherwise, always.
pub trait Component: Sized {
    /// The component's own state is valid.
    open spec fn ready(&self) -> bool {
        true
    }

    /// `inputs` can be evaluated.
    open spec fn accepts(&self, inputs: Seq<Seq<Bit>>) -> bool {
        true
    }

    /// The action `name` can be performed or refused now.
    open spec fn can_invoke(&self, name: Seq<char>) -> bool {
        true
    }

    /// Resets the run-time state.
    fn init(&mut self)
        requires
            old(self).ready(),
        ensures
            final(self).ready(),
    ;

    fn input_count(&self) -> usize
        requires
            self.ready(),
    ;

    fn output_count(&self) -> usize
        requires
            self.ready(),
    ;

    /// Computes the output pins' values from the input pins' values. Nothing changes but what
    /// the component's own fields track: timing is the engine's business.
    fn eval(&mut self, inputs: &[Signal]) -> (out: Vec<Signal>)
        requires
            old(self).ready(),
            old(self).accepts(signals(inputs@)),
        ensures
            final(self).ready(),
    ;

    fn serialize_state(&self) -> Vec<u8>
        requires
            self.ready(),
    ;

    fn deserialize_state(&mut self, state: &[u8])
        requires
            old(self).ready(),
    ;

    /// Names of the actions that have an effect (`on`, `off`, `set`, ...). Most components
    /// have none.
    fn actions(&self) -> (names: Vec<&'static str>)
        requires
            self.ready(),
        default_ensures
            names@.len() == 0,
    {
        Vec::new()
    }

    /// Performs an action, or says why not. A component without actions refuses every name.
    fn invoke(&mut self, name: &str, _arg: Option<Value>) -> (r: Result<(), ActionError>)
        requires
            old(self).ready(),
            old(self).can_invoke(name@),
        ensures
            final(self).ready(),
        default_ensures
            *final(self) == *old(self),
            r is Err,
            r->Err_0@ == ActionErrorView::UnknownAction(name@),
    {
        Err(ActionError::UnknownAction(name.to_owned()))
    }

    /// Names of the values that can be read without an effect.
    fn readouts(&self) -> (names: Vec<&'static str>)
        requires
            self.ready(),
        default_ensures
            names@.len() == 0,
    {
        Vec::new()
    }

    /// Reads a value. The component does not change.
    fn read(&self, name: &str) -> (r: Result<Value, ReadoutError>)
        requires
            self.ready(),
        default_ensures
            r is Err,
            r->Err_0@ == name@,
    {
        Err(ReadoutError::UnknownReadout(name.to_owned()))
    }
}

} // verus!
