//! What scripts mean: what an assertion says of a readout, what an action hands over, how often
//! a script settles, and how a report reads.
use vstd::prelude::*;
use vstd::arithmetic::{div_mod, power2};
use super::{Cmp, Literal, StatementView};
use crate::components::signal;
use crate::ctest;
use crate::plugin_abi::{ActionErrorView, Bit, ValueView};
use crate::sim::SimView;
use crate::text;

verus! {

/// The sum of two to the `i` over the bits that are `One`.
pub open spec fn weight(bits: Seq<Bit>) -> nat
    decreases bits.len(),
{
    if bits.len() == 0 {
        0
    } else {
        weight(bits.drop_last()) + if bits.last() == Bit::One {
            power2::pow2((bits.len() - 1) as nat)
        } else {
            0
        }
    }
}

proof fn weight_of_prefix(bits: Seq<Bit>, k: nat)
    requires
        k <= bits.len(),
    ensures
        weight(bits.take(k as int)) == signal::value_of(bits, k),
    decreases k,
{
    if k > 0 {
        weight_of_prefix(bits, (k - 1) as nat);
        assert(bits.take(k as int).drop_last() =~= bits.take(k - 1));
    }
}

/// The literal is a number, in whatever base it is written.
pub open spec fn is_number(l: Literal, n: u64) -> bool {
    l == Literal::Hex(n) || l == Literal::Bin(n) || l == Literal::Dec(n)
}

/// An `==` assertion of a number on a fully defined signal passes if and only if the sum of two
/// to the `i` over the bits that are `One` is that number, and a `!=` assertion exactly where
/// the `==` fails. How the number is written makes no difference.
pub proof fn numbers_are_compared_exactly(
    s: SimView,
    component: Seq<char>,
    readout: Seq<char>,
    gate: usize,
    bits: Seq<Bit>,
    expected: Literal,
    n: u64,
)
    requires
        is_number(expected, n),
        s.gates[gate as int].read(readout) == Ok::<ValueView, Seq<char>>(ValueView::Bits(bits)),
        forall|i: int|
            0 <= i < bits.len() ==> (#[trigger] bits[i]) == Bit::Zero || bits[i] == Bit::One,
    ensures
        ctest::effect(
            s,
            StatementView::Assert { component, readout, op: Cmp::Eq, expected },
            Some(gate),
        ).1 is None <==> weight(bits) == n,
        ctest::effect(
            s,
            StatementView::Assert { component, readout, op: Cmp::Ne, expected },
            Some(gate),
        ).1 is None <==> weight(bits) != n,
        weight(bits) == n <==> n < power2::pow2(bits.len()) && forall|i: int|
            0 <= i < bits.len() ==> ((#[trigger] bits[i]) == Bit::One <==> (n as int
                / power2::pow2(i as nat) as int) % 2 == 1),
{
    let len = bits.len();
    signal::bits_have_positions(bits, len, 0, Bit::Zero);
    weight_of_prefix(bits, len);
    assert(bits.take(len as int) =~= bits);
    signal::value_bound(bits, len);
    if weight(bits) == n {
        assert forall|i: int| 0 <= i < bits.len() implies ((#[trigger] bits[i]) == Bit::One <==> (
        n as int / power2::pow2(i as nat) as int) % 2 == 1) by {
            signal::words_are_binary(bits, len, i as nat);
        }
    }
    if n < power2::pow2(len) && forall|i: int|
        0 <= i < bits.len() ==> ((#[trigger] bits[i]) == Bit::One <==> (n as int / power2::pow2(
            i as nat,
        ) as int) % 2 == 1) {
        assert(bits =~= signal::bits_of(n as int, len));
        signal::bits_round_trip(n as nat, len);
        div_mod::lemma_small_mod(n as nat, power2::pow2(len));
    }
}

/// Two different numbers are never both the value of one readout.
pub proof fn a_signal_has_one_number(
    bits: Seq<Bit>,
    a: Literal,
    b: Literal,
    n: u64,
    m: u64,
)
    requires
        is_number(a, n),
        is_number(b, m),
        n != m,
    ensures
        !(ctest::holds(Cmp::Eq, ValueView::Bits(bits), a) && ctest::holds(
            Cmp::Eq,
            ValueView::Bits(bits),
            b,
        )),
{
}

/// An `==` assertion of `true` or `false` on a signal passes on that one level alone; one on a
/// readout that is itself `true` or `false` compares the two, `1` and `0` standing for them.
pub proof fn truth_is_compared_exactly(bits: Seq<Bit>, b: bool, e: bool, expected: Literal, n: u64)
    requires
        is_number(expected, n),
    ensures
        ctest::holds(Cmp::Eq, ValueView::Bits(bits), Literal::Bool(e)) <==> bits == (if e {
            seq![Bit::One]
        } else {
            seq![Bit::Zero]
        }),
        ctest::holds(Cmp::Eq, ValueView::Bool(b), Literal::Bool(e)) <==> b == e,
        ctest::holds(Cmp::Eq, ValueView::Bool(b), expected) <==> (b && n == 1) || (!b && n == 0),
        ctest::holds(Cmp::Ne, ValueView::Bits(bits), Literal::Bool(e)) <==> bits != (if e {
            seq![Bit::One]
        } else {
            seq![Bit::Zero]
        }),
        ctest::holds(Cmp::Ne, ValueView::Bool(b), Literal::Bool(e)) <==> b != e,
        ctest::holds(Cmp::Ne, ValueView::Bool(b), expected) <==> !((b && n == 1) || (!b && n == 0)),
{
    if bits.len() == 1 {
        assert(bits =~= seq![bits[0]]);
    }
    assert(seq![Bit::One].len() == 1 && seq![Bit::Zero].len() == 1);
    assert(seq![Bit::One][0] == Bit::One && seq![Bit::Zero][0] == Bit::Zero);
}

/// A number of two to the 63 or more is two to the 64 less as a signed one.
proof fn wrapped(n: u64)
    ensures
        n as i64 == (if n < 0x8000_0000_0000_0000 {
            n as int
        } else {
            n - 0x1_0000_0000_0000_0000
        }),
{
    if n >= 0x8000_0000_0000_0000 {
        assert((n as i64) as i128 == ((n as i128) - 0x1_0000_0000_0000_0000i128) as i128)
            by (bit_vector)
            requires
                n >= 0x8000_0000_0000_0000u64,
        ;
    }
}

/// An integer readout equals a number below two to the 63 where it is that number, and a larger
/// one where it is two to the 64 less. `true` counts as `1` and `false` as `0`.
pub proof fn integers_are_compared_exactly(i: i64, expected: Literal, n: u64, e: bool)
    requires
        is_number(expected, n),
    ensures
        ctest::holds(Cmp::Eq, ValueView::Int(i), expected) <==> (if n < 0x8000_0000_0000_0000 {
            i == n
        } else {
            i == n - 0x1_0000_0000_0000_0000
        }),
        ctest::holds(Cmp::Ne, ValueView::Int(i), expected) <==> !ctest::holds(
            Cmp::Eq,
            ValueView::Int(i),
            expected,
        ),
        ctest::holds(Cmp::Eq, ValueView::Int(i), Literal::Bool(e)) <==> i == (if e {
            1int
        } else {
            0int
        }),
{
    wrapped(n);
}

/// An action gets the number that is written, two to the 64 less where it is two to the 63 or
/// more, or the truth value that is written, or nothing.
pub proof fn actions_get_their_argument(
    s: SimView,
    component: Seq<char>,
    action: Seq<char>,
    gate: usize,
    l: Literal,
    n: u64,
    b: bool,
)
    requires
        is_number(l, n),
    ensures
        ({
            let i = (if n < 0x8000_0000_0000_0000 {
                n as int
            } else {
                n - 0x1_0000_0000_0000_0000
            }) as i64;
            let st = StatementView::Action { component, action, arg: Some(l) };
            let of_bool = StatementView::Action { component, action, arg: Some(Literal::Bool(b)) };
            let bare = StatementView::Action { component, action, arg: None };
            &&& ctest::effect(s, st, Some(gate)).0 == s.invoke(
                gate,
                action,
                Some(ValueView::Int(i)),
            ).0
            &&& ctest::effect(s, st, Some(gate)).1 is None <==> s.invoke(
                gate,
                action,
                Some(ValueView::Int(i)),
            ).1 is Ok
            &&& ctest::effect(s, of_bool, Some(gate)).0 == s.invoke(
                gate,
                action,
                Some(ValueView::Bool(b)),
            ).0
            &&& ctest::effect(s, of_bool, Some(gate)).1 is None <==> s.invoke(
                gate,
                action,
                Some(ValueView::Bool(b)),
            ).1 is Ok
            &&& ctest::effect(s, bare, Some(gate)).0 == s.invoke(gate, action, None).0
            &&& ctest::effect(s, bare, Some(gate)).1 is None <==> s.invoke(
                gate,
                action,
                None,
            ).1 is Ok
        }),
{
    wrapped(n);
}

/// `simulate` settles once, `simulate 0` and `simulate 1` as well, and `simulate n` once more
/// than `simulate n - 1`. It never fails.
pub proof fn simulate_settles_as_often_as_it_says(s: SimView, n: u32, gate: Option<usize>)
    ensures
        ({
            let bare = ctest::effect(s, StatementView::Simulate { ticks: None }, gate);
            let counted = ctest::effect(s, StatementView::Simulate { ticks: Some(n) }, gate);
            let fewer = ctest::effect(
                s,
                StatementView::Simulate { ticks: Some((n - 1) as u32) },
                gate,
            );
            &&& bare.0 == s.quiesced() && bare.1 is None && counted.1 is None
            &&& n <= 1 ==> counted.0 == s.quiesced()
            &&& n > 1 ==> counted.0 == fewer.0.quiesced()
        }),
{
    reveal_with_fuel(ctest::settled, 3);
}

/// What a failing statement is reported with: the component, what was asked of it and what came
/// back.
pub proof fn failures_read(
    s: SimView,
    component: Seq<char>,
    name: Seq<char>,
    gate: usize,
    op: Cmp,
    expected: Literal,
    arg: Option<Literal>,
)
    ensures
        ({
            let asserted = StatementView::Assert { component, readout: name, op, expected };
            let acted = StatementView::Action { component, action: name, arg };
            &&& ctest::effect(s, asserted, None).1 == Some(
                "unknown component `"@ + component + "`"@,
            )
            &&& ctest::effect(s, acted, None) == (
                s,
                Some("unknown component `"@ + component + "`"@),
            )
            &&& s.gates[gate as int].read(name) matches Err(e) ==> ctest::effect(
                s,
                asserted,
                Some(gate),
            ).1 == Some(
                "component["@ + component + "] -> "@ + name + ": "@ + ("UnknownReadout("@
                    + text::quoted(e) + ")"@),
            )
            &&& s.gates[gate as int].read(name) matches Ok(actual) ==> ({
                let told = ctest::effect(s, asserted, Some(gate)).1;
                &&& told is Some ==> told->0 == "assert component["@ + component + "] -> "@ + name
                    + " "@ + (if op == Cmp::Eq {
                    "=="@
                } else {
                    "!="@
                }) + " "@ + expected.text() + ": got "@ + ctest::described(actual)
            })
        }),
{
}

/// A refused action is reported with the reason.
pub proof fn refusals_read(
    s: SimView,
    component: Seq<char>,
    action: Seq<char>,
    gate: usize,
    known: Seq<char>,
    reason: Seq<char>,
)
    ensures
        ({
            let told = ctest::effect(
                s,
                StatementView::Action { component, action, arg: None },
                Some(gate),
            ).1;
            let outcome = s.invoke(gate, action, None).1;
            &&& outcome == Err::<(), ActionErrorView>(ActionErrorView::UnknownAction(known))
                ==> told == Some(
                "component["@ + component + "] -> "@ + action + ": "@ + ("UnknownAction("@
                    + text::quoted(known) + ")"@),
            )
            &&& outcome == Err::<(), ActionErrorView>(
                ActionErrorView::InvalidArg { action: known, reason },
            ) ==> told == Some(
                "component["@ + component + "] -> "@ + action + ": "@ + (
                "InvalidArg { action: "@ + text::quoted(known) + ", reason: "@ + text::quoted(
                    reason,
                ) + " }"@),
            )
        }),
{
}

/// How values and literals read: a signal from its highest bit to its lowest, one character for
/// each, a number with its base in front.
pub proof fn values_read(bits: Seq<Bit>, i: int, n: u64, b: bool)
    requires
        0 <= i < bits.len(),
    ensures
        ({
            let shown = ctest::described(ValueView::Bits(bits));
            let c = shown[bits.len() - 1 - i];
            &&& shown.len() == bits.len()
            &&& bits[i] == Bit::Zero ==> c == '0'
            &&& bits[i] == Bit::One ==> c == '1'
            &&& bits[i] == Bit::Unknown ==> c == 'x'
            &&& bits[i] == Bit::Error ==> c == 'E'
        }),
        ctest::described(ValueView::Bool(true)) == "true"@,
        ctest::described(ValueView::Bool(false)) == "false"@,
        Literal::Bool(true).text() == "true"@,
        Literal::Bool(false).text() == "false"@,
        Literal::Hex(n).text() == "0x"@ + text::numeral(n as nat, 16),
        Literal::Bin(n).text() == "0b"@ + text::numeral(n as nat, 2),
        Literal::Dec(n).text() == text::decimal(n as nat),
{
}

/// A report grows with the script: a statement that goes wrong adds its line and its message at
/// the end, an assertion counts one, and nothing that was reported is lost.
pub proof fn reports_grow(
    s: SimView,
    script: Seq<(nat, StatementView)>,
    gates: Seq<Option<usize>>,
    k: nat,
)
    ensures
        ({
            let (before, told) = ctest::after(s, script, gates, k);
            let (now, report) = ctest::after(s, script, gates, k + 1);
            let (line, st) = script[k as int];
            let (after, failure) = ctest::effect(before, st, gates[k as int]);
            &&& now == after
            &&& failure matches Some(message) ==> report.failures == told.failures + seq![
                (line, message),
            ]
            &&& failure is None ==> report.failures == told.failures
            &&& st is Assert ==> report.asserts_run == told.asserts_run + 1
            &&& !(st is Assert) ==> report.asserts_run == told.asserts_run
        }),
        ctest::after(s, script, gates, 0).0 == s,
        ctest::after(s, script, gates, 0).1.asserts_run == 0,
        ctest::after(s, script, gates, 0).1.failures.len() == 0,
{
    let told = ctest::after(s, script, gates, k).1;
    let (line, st) = script[k as int];
    let failure = ctest::effect(ctest::after(s, script, gates, k).0, st, gates[k as int]).1;
    if let Some(message) = failure {
        assert(told.failures.push((line, message)) =~= told.failures + seq![(line, message)]);
    }
}

} // verus!
