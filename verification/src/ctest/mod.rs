//! Test scripts.
//!
//! ```text
//! component[sw_a] -> on
//! component[sw_b] -> set(0x05)
//! simulate
//! assert component[out] -> get == 0x08
//! ```
//!
//! A script is a list of statements, one to a line, that are carried out in their order: it has
//! no loops and always ends. A failing assertion does not end the run; all failures are
//! reported.
use vstd::arithmetic::power2;
use vstd::prelude::*;
use vstd::string::StringExecFns;
use crate::components::signal;
use crate::plugin_abi;
use crate::plugin_abi::{ActionError, Bit, ReadoutError, Value, ValueView};
use crate::sim;
use crate::sim::{SimView, Simulation};
use crate::summary;
use crate::text;

pub mod grammar;
pub mod meaning;
pub mod parser;

pub use crate::ctest::parser::parse;

verus! {

/// A value in a script.
#[derive(Debug, Clone, Copy, PartialEq, Eq, Structural)]
pub enum Literal {
    Hex(u64),
    Bin(u64),
    Dec(u64),
    Bool(bool),
}

/// How an assertion compares.
#[derive(Debug, Clone, Copy, PartialEq, Eq, Structural)]
pub enum Cmp {
    Eq,
    Ne,
}

/// A statement of a script.
#[derive(Debug, Clone, PartialEq)]
pub enum Statement {
    /// `component[id] -> action` or `component[id] -> action(arg)`.
    Action { component: String, action: String, arg: Option<Literal> },
    /// `simulate` or `simulate <n>`.
    Simulate { ticks: Option<u32> },
    /// `assert component[id] -> readout == <literal>`, or with `!=`.
    Assert { component: String, readout: String, cmp: Cmp, expected: Literal },
}

/// The mathematical content of a [`Statement`].
pub enum StatementView {
    Action { component: Seq<char>, action: Seq<char>, arg: Option<Literal> },
    Simulate { ticks: Option<u32> },
    Assert { component: Seq<char>, readout: Seq<char>, op: Cmp, expected: Literal },
}

impl View for Statement {
    type V = StatementView;

    open spec fn view(&self) -> StatementView {
        match self {
            Statement::Action { component, action, arg } => StatementView::Action {
                component: component@,
                action: action@,
                arg: *arg,
            },
            Statement::Simulate { ticks } => StatementView::Simulate { ticks: *ticks },
            Statement::Assert { component, readout, cmp, expected } => StatementView::Assert {
                component: component@,
                readout: readout@,
                op: *cmp,
                expected: *expected,
            },
        }
    }
}

/// Why a script cannot be read.
#[derive(Debug, Clone, PartialEq)]
pub struct ParseError {
    pub line: usize,
    pub message: String,
}

impl ParseError {
    /// The error as it reads in a message.
    pub fn to_text(&self) -> (r: String)
        ensures
            r@ == "line "@ + text::decimal(self.line as nat) + ": "@ + self.message@,
    {
        let mut out: String = "line ".to_owned();
        text::push_decimal(&mut out, self.line as u64);
        out.append(": ");
        out.append(self.message.as_str());
        out
    }
}

/// The number that a literal is.
pub open spec fn number_of(l: Literal) -> u64 {
    match l {
        Literal::Hex(n) | Literal::Bin(n) | Literal::Dec(n) => n,
        Literal::Bool(b) => if b {
            1
        } else {
            0
        },
    }
}

/// A literal as an action's argument. Numbers beyond the range of `i64` wrap around.
pub open spec fn action_arg(l: Literal) -> ValueView {
    match l {
        Literal::Hex(n) | Literal::Bin(n) | Literal::Dec(n) => ValueView::Int(n as i64),
        Literal::Bool(b) => ValueView::Bool(b),
    }
}

pub open spec fn bool_text(b: bool) -> Seq<char> {
    if b {
        "true"@
    } else {
        "false"@
    }
}

impl Literal {
    /// How a literal reads in a message.
    pub open spec fn text(self) -> Seq<char> {
        match self {
            Literal::Hex(n) => "0x"@ + text::numeral(n as nat, 16),
            Literal::Bin(n) => "0b"@ + text::numeral(n as nat, 2),
            Literal::Dec(n) => text::decimal(n as nat),
            Literal::Bool(b) => bool_text(b),
        }
    }

    /// The literal as an action's argument.
    fn to_action_arg(&self) -> (r: Value)
        ensures
            r@ == action_arg(*self),
    {
        match self {
            Literal::Hex(n) | Literal::Bin(n) | Literal::Dec(n) => Value::Int(
                #[verifier::truncate]
                (*n as i64),
            ),
            Literal::Bool(b) => Value::Bool(*b),
        }
    }

    /// The literal as it reads in a message.
    pub fn to_text(&self) -> (r: String)
        ensures
            r@ == self.text(),
    {
        let mut out: String = String::new();
        match self {
            Literal::Hex(n) => {
                out.append("0x");
                text::push_numeral(&mut out, *n, 16);
            },
            Literal::Bin(n) => {
                out.append("0b");
                text::push_numeral(&mut out, *n, 2);
            },
            Literal::Dec(n) => {
                text::push_decimal(&mut out, *n);
            },
            Literal::Bool(b) => {
                if *b {
                    out.append("true");
                } else {
                    out.append("false");
                }
            },
        }
        assert(out@ =~= self.text());
        out
    }
}

/// The number on a signal, where every bit of it is a level.
pub open spec fn number_on(bits: Seq<Bit>) -> Option<nat> {
    if signal::defined(bits, bits.len()) {
        Some(signal::value_of(bits, bits.len()))
    } else {
        None
    }
}

/// A readout has the value of a literal. A signal that is not defined has the value of none.
pub open spec fn matched(actual: ValueView, expected: Literal) -> bool {
    match (actual, expected) {
        (ValueView::Bool(b), Literal::Bool(e)) => b == e,
        (ValueView::Bool(b), _) => number_of(Literal::Bool(b)) == number_of(expected),
        (ValueView::Int(i), _) => i == number_of(expected) as i64,
        (ValueView::Bits(bits), Literal::Bool(e)) => bits.len() == 1 && bits[0] == (if e {
            Bit::One
        } else {
            Bit::Zero
        }),
        (ValueView::Bits(bits), _) => number_on(bits) == Some(number_of(expected) as nat),
    }
}

/// How a readout reads in a message: a signal from its highest bit to its lowest.
pub open spec fn described(v: ValueView) -> Seq<char> {
    match v {
        ValueView::Bool(b) => bool_text(b),
        ValueView::Int(i) => text::decimal_int(i as int),
        ValueView::Bits(bits) => Seq::new(
            bits.len(),
            |i: int| summary::bit_shown(bits[bits.len() - 1 - i]),
        ),
    }
}

fn literal_number(l: &Literal) -> (r: u64)
    ensures
        r == number_of(*l),
{
    match l {
        Literal::Hex(n) | Literal::Bin(n) | Literal::Dec(n) => *n,
        Literal::Bool(b) => if *b {
            1
        } else {
            0
        },
    }
}

/// Adding higher bits does not lower a number.
proof fn value_grows(bits: Seq<Bit>, j: nat, k: nat)
    requires
        j <= k,
    ensures
        signal::value_of(bits, j) <= signal::value_of(bits, k),
    decreases k,
{
    if j < k {
        value_grows(bits, j, (k - 1) as nat);
    }
}

/// The number on a signal, where it has one that is not too large.
fn bits_to_u64(bits: &Vec<Bit>) -> (r: Option<u64>)
    ensures
        match r {
            Some(v) => number_on(bits@) == Some(v as nat),
            None => number_on(bits@) matches Some(v) ==> v > u64::MAX,
        },
{
    let mut value: u64 = 0;
    let mut too_large: bool = false;
    for i in 0..bits.len()
        invariant
            forall|j: int| 0 <= j < i ==> plugin_abi::is_level(#[trigger] bits@[j]),
            i <= 64 ==> !too_large,
            !too_large ==> value == signal::value_of(bits@, i as nat),
            too_large ==> signal::value_of(bits@, i as nat) > u64::MAX,
    {
        proof {
            power2::lemma2_to64();
            power2::lemma2_to64_rest();
            value_grows(bits@, i as nat, (i + 1) as nat);
            signal::value_bound(bits@, (i + 1) as nat);
        }
        match bits[i] {
            Bit::One => {
                if i < 64 {
                    proof {
                        if i < 63 {
                            power2::lemma_pow2_strictly_increases((i + 1) as nat, 64);
                        }
                        vstd::bits::lemma_u64_shl_is_mul(1u64, i as u64);
                    }
                    value = value + (1u64 << (i as u64));
                } else {
                    proof {
                        if i > 64 {
                            power2::lemma_pow2_strictly_increases(64, i as nat);
                        }
                    }
                    too_large = true;
                }
            },
            Bit::Zero => {},
            _ => {
                assert(!plugin_abi::is_level(signal::bit_of(bits@, i as int)));
                return None;
            },
        }
    }
    if too_large {
        None
    } else {
        Some(value)
    }
}

fn value_matches(actual: &Value, expected: &Literal) -> (r: bool)
    ensures
        r == matched(actual@, *expected),
{
    let n: u64 = literal_number(expected);
    match actual {
        Value::Bool(b) => match expected {
            Literal::Bool(e) => *b == *e,
            _ => n == literal_number(&Literal::Bool(*b)),
        },
        Value::Int(i) => {
            #[verifier::truncate]
            let wrapped: i64 = n as i64;
            *i == wrapped
        },
        Value::Bits(bits) => match expected {
            Literal::Bool(e) => bits.len() == 1 && bits[0] == (if *e {
                Bit::One
            } else {
                Bit::Zero
            }),
            _ => match bits_to_u64(bits) {
                Some(v) => v == n,
                None => false,
            },
        },
    }
}

fn describe(v: &Value) -> (r: String)
    ensures
        r@ == described(v@),
{
    let mut out: String = String::new();
    match v {
        Value::Bool(b) => {
            if *b {
                out.append("true");
            } else {
                out.append("false");
            }
        },
        Value::Int(i) => {
            text::push_int(&mut out, *i);
        },
        Value::Bits(bits) => {
            let n: usize = bits.len();
            assert(out@ =~= Seq::empty());
            for i in 0..n
                invariant
                    n == bits@.len(),
                    out@ == described(ValueView::Bits(bits@)).take(i as int),
            {
                out.push(summary::bit_char(bits[n - 1 - i]));
                assert(out@ =~= described(ValueView::Bits(bits@)).take(i + 1));
            }
        },
    }
    assert(out@ =~= described(v@));
    out
}

/// What went wrong, and on which line.
#[derive(Debug, Clone, PartialEq)]
pub struct Failure {
    pub line: usize,
    pub message: String,
}

/// What came of a run.
#[derive(Debug, Default)]
pub struct RunReport {
    pub asserts_run: usize,
    pub failures: Vec<Failure>,
}

/// The mathematical content of a [`RunReport`].
#[verifier::ext_equal]
pub struct ReportView {
    pub asserts_run: nat,
    /// Line and message of every failure.
    pub failures: Seq<(nat, Seq<char>)>,
}

/// The contents of a list of failures.
pub open spec fn failures(list: Seq<Failure>) -> Seq<(nat, Seq<char>)> {
    Seq::new(list.len(), |i: int| (list[i].line as nat, list[i].message@))
}

impl View for RunReport {
    type V = ReportView;

    open spec fn view(&self) -> ReportView {
        ReportView { asserts_run: self.asserts_run as nat, failures: failures(self.failures@) }
    }
}

impl RunReport {
    /// Nothing went wrong.
    pub fn passed(&self) -> (r: bool)
        ensures
            r == (self@.failures.len() == 0),
    {
        self.failures.len() == 0
    }
}

pub open spec fn unknown_component(component: Seq<char>) -> Seq<char> {
    "unknown component `"@ + component + "`"@
}

/// What is said of an action or a readout that a component does not offer.
pub open spec fn refused(component: Seq<char>, name: Seq<char>, error: Seq<char>) -> Seq<char> {
    "component["@ + component + "] -> "@ + name + ": "@ + error
}

pub open spec fn op_text(op: Cmp) -> Seq<char> {
    match op {
        Cmp::Eq => "=="@,
        Cmp::Ne => "!="@,
    }
}

/// What is said of an assertion that does not hold.
pub open spec fn failed_assert(
    component: Seq<char>,
    readout: Seq<char>,
    op: Cmp,
    expected: Literal,
    actual: ValueView,
) -> Seq<char> {
    "assert component["@ + component + "] -> "@ + readout + " "@ + op_text(op) + " "@
        + expected.text() + ": got "@ + described(actual)
}

/// An assertion holds of a value.
pub open spec fn holds(op: Cmp, actual: ValueView, expected: Literal) -> bool {
    match op {
        Cmp::Eq => matched(actual, expected),
        Cmp::Ne => !matched(actual, expected),
    }
}

/// The simulation after settling `n` times.
pub open spec fn settled(s: SimView, n: nat) -> SimView
    decreases n,
{
    if n == 0 {
        s
    } else {
        settled(s, (n - 1) as nat).quiesced()
    }
}

/// How often a `simulate` statement settles: as often as it says, but once at least.
pub open spec fn rounds(ticks: Option<u32>) -> nat {
    match ticks {
        Some(n) => if n == 0 {
            1
        } else {
            n as nat
        },
        None => 1,
    }
}

/// What a statement does to the simulation, and what goes wrong, if anything. `gate` is the
/// gate of the component that it names, if there is one.
pub open spec fn effect(s: SimView, st: StatementView, gate: Option<usize>) -> (
    SimView,
    Option<Seq<char>>,
) {
    match st {
        StatementView::Simulate { ticks } => (settled(s, rounds(ticks)), None),
        StatementView::Action { component, action, arg } => match gate {
            None => (s, Some(unknown_component(component))),
            Some(g) => {
                let arg = match arg {
                    Some(l) => Some(action_arg(l)),
                    None => None,
                };
                let (after, outcome) = s.invoke(g, action, arg);
                match outcome {
                    Ok(()) => (after, None),
                    Err(e) => (after, Some(refused(component, action, e.text()))),
                }
            },
        },
        StatementView::Assert { component, readout, op, expected } => match gate {
            None => (s, Some(unknown_component(component))),
            Some(g) => match s.gates[g as int].read(readout) {
                Err(name) => (
                    s,
                    Some(refused(component, readout, plugin_abi::unknown_readout_text(name))),
                ),
                Ok(actual) => if holds(op, actual, expected) {
                    (s, None)
                } else {
                    (s, Some(failed_assert(component, readout, op, expected, actual)))
                },
            },
        },
    }
}

/// The report after a statement.
pub open spec fn reported(
    report: ReportView,
    line: nat,
    st: StatementView,
    failure: Option<Seq<char>>,
) -> ReportView {
    ReportView {
        asserts_run: report.asserts_run + if st is Assert {
            1nat
        } else {
            0nat
        },
        failures: match failure {
            Some(message) => report.failures.push((line, message)),
            None => report.failures,
        },
    }
}

/// Simulation and report after the first `k` statements, given which gate each of them
/// names.
pub open spec fn after(
    s: SimView,
    script: Seq<(nat, StatementView)>,
    gates: Seq<Option<usize>>,
    k: nat,
) -> (SimView, ReportView)
    decreases k,
{
    if k == 0 {
        (s, ReportView { asserts_run: 0, failures: Seq::empty() })
    } else {
        let (before, report) = after(s, script, gates, (k - 1) as nat);
        let (line, st) = script[k - 1];
        let (now, failure) = effect(before, st, gates[k - 1]);
        (now, reported(report, line, st, failure))
    }
}

/// Settling uses up no actions.
pub proof fn settling_tolerates(s: SimView, after: SimView, n: nat)
    requires
        s.tolerates(n),
        sim::runs_to(s, after),
    ensures
        after.tolerates(n),
        after.gates.len() == s.gates.len(),
{
    let k = choose|k: nat| #[trigger] sim::ran(s, after, k);
    sim::steps_tolerate(s, k, n);
}

fn settle(sim: &mut Simulation, ticks: Option<u32>, Ghost(n): Ghost<nat>)
    requires
        old(sim).wf(),
        old(sim)@.tolerates(n),
    ensures
        final(sim).wf(),
        final(sim)@ == settled(old(sim)@, rounds(ticks)),
        final(sim)@.tolerates(n),
        final(sim)@.gates.len() == old(sim)@.gates.len(),
{
    let ghost s = sim@;
    let count: u32 = match ticks {
        Some(n) => if n == 0 {
            1
        } else {
            n
        },
        None => 1,
    };
    for i in 0..count
        invariant
            sim.wf(),
            sim@ == settled(s, i as nat),
            sim@.tolerates(n),
            sim@.gates.len() == s.gates.len(),
    {
        let ghost before = sim@;
        sim.run_to_quiescence();
        proof {
            settling_tolerates(before, sim@, n);
        }
    }
}

fn render_unknown(component: &str) -> (r: String)
    ensures
        r@ == unknown_component(component@),
{
    let mut out: String = "unknown component `".to_owned();
    out.append(component);
    out.append("`");
    out
}

fn render_refused(component: &str, name: &str, error: &str) -> (r: String)
    ensures
        r@ == refused(component@, name@, error@),
{
    let mut out: String = "component[".to_owned();
    out.append(component);
    out.append("] -> ");
    out.append(name);
    out.append(": ");
    out.append(error);
    out
}

fn render_failed(
    component: &str,
    readout: &str,
    op: Cmp,
    expected: &Literal,
    actual: &Value,
) -> (r: String)
    ensures
        r@ == failed_assert(component@, readout@, op, *expected, actual@),
{
    let mut out: String = "assert component[".to_owned();
    out.append(component);
    out.append("] -> ");
    out.append(readout);
    out.append(" ");
    match op {
        Cmp::Eq => out.append("=="),
        Cmp::Ne => out.append("!="),
    }
    out.append(" ");
    out.append(expected.to_text().as_str());
    out.append(": got ");
    out.append(describe(actual).as_str());
    out
}

/// Performs an action on a component.
fn run_action(
    sim: &mut Simulation,
    component: &str,
    action: &str,
    arg: &Option<Literal>,
    gate: Option<usize>,
    Ghost(n): Ghost<nat>,
) -> (r: Option<String>)
    requires
        old(sim).wf(),
        n > 0,
        old(sim)@.tolerates(n),
        gate matches Some(g) ==> g < old(sim)@.gates.len(),
    ensures
        final(sim).wf(),
        final(sim)@.tolerates((n - 1) as nat),
        final(sim)@.gates.len() == old(sim)@.gates.len(),
        ({
            let st = StatementView::Action { component: component@, action: action@, arg: *arg };
            (final(sim)@, message_of(r)) == effect(old(sim)@, st, gate)
        }),
{
    let ghost s = sim@;
    match gate {
        None => {
            assert forall|i: int| 0 <= i < s.gates.len() implies (
            #[trigger] s.gates[i]).tolerates((n - 1) as nat) by {
                assert(s.gates[i].tolerates(n));
            }
            Some(render_unknown(component))
        },
        Some(g) => {
            let value: Option<Value> = match arg {
                Some(l) => Some(l.to_action_arg()),
                None => None,
            };
            let ghost v = plugin_abi::arg_view(value);
            proof {
                assert(s.gates[g as int].tolerates(n));
                crate::components::actions_are_tolerated(s.gates[g as int], n, action@, v);
            }
            let outcome: Result<(), ActionError> = sim.invoke(g, action, value);
            proof {
                assert forall|i: int| 0 <= i < sim@.gates.len() implies (
                #[trigger] sim@.gates[i]).tolerates((n - 1) as nat) by {
                    assert(s.gates[i].tolerates(n));
                }
            }
            match outcome {
                Ok(()) => None,
                Err(e) => Some(render_refused(component, action, e.to_text().as_str())),
            }
        },
    }
}

/// The contents of an optional message.
pub open spec fn message_of(r: Option<String>) -> Option<Seq<char>> {
    match r {
        Some(m) => Some(m@),
        None => None,
    }
}

/// Checks an assertion.
fn run_assert(
    sim: &Simulation,
    component: &str,
    readout: &str,
    op: Cmp,
    expected: &Literal,
    gate: Option<usize>,
) -> (r: Option<String>)
    requires
        sim.wf(),
        gate matches Some(g) ==> g < sim@.gates.len(),
    ensures
        ({
            let st = StatementView::Assert {
                component: component@,
                readout: readout@,
                op,
                expected: *expected,
            };
            (sim@, message_of(r)) == effect(sim@, st, gate)
        }),
{
    match gate {
        None => Some(render_unknown(component)),
        Some(g) => {
            let outcome: Result<Value, ReadoutError> = sim.read(g, readout);
            match outcome {
                Err(e) => Some(render_refused(component, readout, e.to_text().as_str())),
                Ok(actual) => {
                    let same: bool = value_matches(&actual, expected);
                    let ok: bool = match op {
                        Cmp::Eq => same,
                        Cmp::Ne => !same,
                    };
                    if ok {
                        None
                    } else {
                        Some(render_failed(component, readout, op, expected, &actual))
                    }
                },
            }
        },
    }
}

/// Does what a statement says, and says what goes wrong.
fn perform(
    statement: &Statement,
    gate: Option<usize>,
    sim: &mut Simulation,
    Ghost(left): Ghost<nat>,
) -> (r: Option<String>)
    requires
        old(sim).wf(),
        old(sim)@.tolerates(left + 1),
        old(sim)@.tolerates(left),
        gate matches Some(g) ==> g < old(sim)@.gates.len(),
    ensures
        final(sim).wf(),
        final(sim)@.tolerates(left),
        final(sim)@.gates.len() == old(sim)@.gates.len(),
        (final(sim)@, message_of(r)) == effect(old(sim)@, statement@, gate),
{
    match statement {
        Statement::Simulate { ticks } => {
            settle(sim, *ticks, Ghost(left));
            None
        },
        Statement::Action { component, action, arg } => run_action(
            sim,
            component.as_str(),
            action.as_str(),
            arg,
            gate,
            Ghost(left + 1),
        ),
        Statement::Assert { component, readout, cmp: op, expected } => run_assert(
            sim,
            component.as_str(),
            readout.as_str(),
            *op,
            expected,
            gate,
        ),
    }
}

fn run_one(
    line: usize,
    statement: &Statement,
    gate: Option<usize>,
    sim: &mut Simulation,
    report: &mut RunReport,
    Ghost(left): Ghost<nat>,
)
    requires
        old(sim).wf(),
        old(sim)@.tolerates(left + 1),
        gate matches Some(g) ==> g < old(sim)@.gates.len(),
        old(report).asserts_run < usize::MAX,
    ensures
        final(sim).wf(),
        final(sim)@.tolerates(left),
        final(sim)@.gates.len() == old(sim)@.gates.len(),
        final(sim)@ == effect(old(sim)@, statement@, gate).0,
        final(report)@ == reported(
            old(report)@,
            line as nat,
            statement@,
            effect(old(sim)@, statement@, gate).1,
        ),
        final(report).asserts_run <= old(report).asserts_run + 1,
{
    let ghost before = *report;
    proof {
        assert forall|i: int| 0 <= i < sim@.gates.len() implies (
        #[trigger] sim@.gates[i]).tolerates(left) by {
            assert(sim@.gates[i].tolerates(left + 1));
        }
    }
    if let Statement::Assert { .. } = statement {
        report.asserts_run = report.asserts_run + 1;
    }
    match perform(statement, gate, sim, Ghost(left)) {
        Some(message) => {
            let ghost m = message@;
            report.failures.push(Failure { line, message });
            assert(failures(report.failures@) =~= failures(before.failures@).push(
                (line as nat, m),
            ));
        },
        None => {},
    }
}

/// Carries out one statement, given which gate its component is.
pub fn run_statement(
    line: usize,
    statement: &Statement,
    gate: Option<usize>,
    sim: &mut Simulation,
    report: &mut RunReport,
)
    requires
        old(sim).wf(),
        old(sim)@.tolerates(1),
        gate matches Some(g) ==> g < old(sim)@.gates.len(),
        old(report).asserts_run < usize::MAX,
    ensures
        final(sim).wf(),
        final(sim)@.gates.len() == old(sim)@.gates.len(),
        final(sim)@ == effect(old(sim)@, statement@, gate).0,
        final(report)@ == reported(
            old(report)@,
            line as nat,
            statement@,
            effect(old(sim)@, statement@, gate).1,
        ),
{
    run_one(line, statement, gate, sim, report, Ghost(0nat))
}

/// The component that a statement names.
pub open spec fn component_of(st: StatementView) -> Option<Seq<char>> {
    match st {
        StatementView::Action { component, .. } => Some(component),
        StatementView::Assert { component, .. } => Some(component),
        StatementView::Simulate { .. } => None,
    }
}

/// The resolver gives this gate for the component that the statement names.
pub open spec fn is_resolved<F: Fn(&str) -> Option<usize>>(
    resolve: F,
    st: StatementView,
    gate: Option<usize>,
) -> bool {
    match component_of(st) {
        Some(component) => exists|id: &str| #[trigger]
            call_ensures(resolve, (id,), gate) && id@ == component,
        None => gate is None,
    }
}

/// Every statement's component is resolved.
pub open spec fn are_resolved<F: Fn(&str) -> Option<usize>>(
    resolve: F,
    script: Seq<(nat, StatementView)>,
    gates: Seq<Option<usize>>,
) -> bool {
    &&& gates.len() == script.len()
    &&& forall|i: int|
        0 <= i < script.len() ==> is_resolved(resolve, (#[trigger] script[i]).1, gates[i])
}

/// Carries out a script on a simulation. `resolve` says which gate a component is.
pub fn run<F: Fn(&str) -> Option<usize>>(
    script: &[(usize, Statement)],
    sim: &mut Simulation,
    resolve: F,
) -> (report: RunReport)
    requires
        old(sim).wf(),
        old(sim)@.tolerates(script@.len()),
        forall|id: &str| #[trigger] call_requires(resolve, (id,)),
        forall|id: &str, g: usize| #[trigger]
            call_ensures(resolve, (id,), Some(g)) ==> g < old(sim)@.gates.len(),
    ensures
        final(sim).wf(),
        exists|gates: Seq<Option<usize>>| #[trigger]
            are_resolved(resolve, parser::statements(script@), gates) && (
            final(sim)@,
            report@,
        ) == after(old(sim)@, parser::statements(script@), gates, script@.len()),
{
    let ghost s = sim@;
    let ghost list = parser::statements(script@);
    let ghost mut gates: Seq<Option<usize>> = Seq::empty();
    let mut report: RunReport = RunReport { asserts_run: 0, failures: Vec::new() };
    assert(failures(report.failures@) =~= Seq::<(nat, Seq<char>)>::empty());
    for k in 0..script.len()
        invariant
            s == old(sim)@,
            list == parser::statements(script@),
            sim.wf(),
            sim@.tolerates((script@.len() - k) as nat),
            sim@.gates.len() == s.gates.len(),
            forall|id: &str| #[trigger] call_requires(resolve, (id,)),
            forall|id: &str, g: usize| #[trigger]
                call_ensures(resolve, (id,), Some(g)) ==> g < s.gates.len(),
            report.asserts_run <= k,
            gates.len() == k,
            forall|i: int|
                0 <= i < k ==> is_resolved(resolve, (#[trigger] list[i]).1, gates[i]),
            (sim@, report@) == after(s, list, gates, k as nat),
    {
        let line: usize = script[k].0;
        let statement: &Statement = &script[k].1;
        assert(list[k as int] == (line as nat, statement@));
        let gate: Option<usize> = match statement {
            Statement::Simulate { .. } => None,
            Statement::Action { component, .. } => resolve(component.as_str()),
            Statement::Assert { component, .. } => resolve(component.as_str()),
        };
        let ghost more = gates.push(gate);
        proof {
            assert(is_resolved(resolve, statement@, gate));
            same_so_far(s, list, gates, more, k as nat);
        }
        run_one(line, statement, gate, sim, &mut report, Ghost((script@.len() - k - 1) as nat));
        proof {
            assert forall|i: int| 0 <= i < k + 1 implies is_resolved(
                resolve,
                (#[trigger] list[i]).1,
                more[i],
            ) by {
                if i < k {
                    assert(more[i] == gates[i]);
                }
            }
            gates = more;
        }
    }
    assert(are_resolved(resolve, list, gates));
    report
}

/// What happened so far does not depend on what is resolved later.
proof fn same_so_far(
    s: SimView,
    script: Seq<(nat, StatementView)>,
    a: Seq<Option<usize>>,
    b: Seq<Option<usize>>,
    k: nat,
)
    requires
        k <= a.len(),
        a.is_prefix_of(b),
    ensures
        after(s, script, a, k) == after(s, script, b, k),
    decreases k,
{
    if k > 0 {
        same_so_far(s, script, a, b, (k - 1) as nat);
        assert(a[k - 1] == b[k - 1]);
    }
}

/// How many of the first `k` statements are assertions.
pub open spec fn assertions(script: Seq<(nat, StatementView)>, k: nat) -> nat
    decreases k,
{
    if k == 0 {
        0
    } else {
        assertions(script, (k - 1) as nat) + if script[k - 1].1 is Assert {
            1nat
        } else {
            0nat
        }
    }
}

/// Every assertion of a script is run, however many of them fail.
pub proof fn every_assertion_is_run(
    s: SimView,
    script: Seq<(nat, StatementView)>,
    gates: Seq<Option<usize>>,
    k: nat,
)
    ensures
        after(s, script, gates, k).1.asserts_run == assertions(script, k),
    decreases k,
{
    if k > 0 {
        every_assertion_is_run(s, script, gates, (k - 1) as nat);
    }
}

/// A statement that goes wrong is reported with its line, whatever comes after it.
pub proof fn every_failure_is_reported(
    s: SimView,
    script: Seq<(nat, StatementView)>,
    gates: Seq<Option<usize>>,
    i: nat,
    k: nat,
)
    requires
        i < k,
        effect(after(s, script, gates, i).0, script[i as int].1, gates[i as int]).1 is Some,
    ensures
        after(s, script, gates, k).1.failures.contains(
            (
                script[i as int].0,
                effect(after(s, script, gates, i).0, script[i as int].1, gates[i as int]).1->0,
            ),
        ),
    decreases k,
{
    let x = (
        script[i as int].0,
        effect(after(s, script, gates, i).0, script[i as int].1, gates[i as int]).1->0,
    );
    let before = after(s, script, gates, (k - 1) as nat).1.failures;
    let now = after(s, script, gates, k).1.failures;
    if i == k - 1 {
        assert(now[before.len() as int] == x);
    } else {
        every_failure_is_reported(s, script, gates, i, (k - 1) as nat);
        let j = choose|j: int| 0 <= j < before.len() && before[j] == x;
        assert(now[j] == x);
    }
}

/// A run passes if and only if no statement goes wrong.
pub proof fn passing_means_no_failure(
    s: SimView,
    script: Seq<(nat, StatementView)>,
    gates: Seq<Option<usize>>,
    k: nat,
)
    ensures
        after(s, script, gates, k).1.failures.len() == 0 <==> forall|i: nat|
            i < k ==> (#[trigger] effect(
                after(s, script, gates, i).0,
                script[i as int].1,
                gates[i as int],
            )).1 is None,
    decreases k,
{
    if k > 0 {
        passing_means_no_failure(s, script, gates, (k - 1) as nat);
        let last = (k - 1) as nat;
        let e = effect(after(s, script, gates, last).0, script[last as int].1, gates[last as int]);
        assert(e.1 is None || e.1 is Some);
    }
}

/// An undefined bit is no value: a signal with a bit that is not a level equals no literal.
pub proof fn undefined_signals_match_nothing(bits: Seq<Bit>, i: int, expected: Literal)
    requires
        0 <= i < bits.len(),
        !plugin_abi::is_level(bits[i]),
    ensures
        !matched(ValueView::Bits(bits), expected),
        holds(Cmp::Ne, ValueView::Bits(bits), expected),
{
    assert(!plugin_abi::is_level(signal::bit_of(bits, i)));
}

/// Assertions observe: they do not change the simulation.
pub proof fn assertions_change_nothing(s: SimView, st: StatementView, gate: Option<usize>)
    requires
        st is Assert,
    ensures
        effect(s, st, gate).0 == s,
{
}

} // verus!
