//! What the simulation does: what a gate reads, what a batch of evaluations changes and sets
//! off, and what ticks and actions do.
use vstd::prelude::*;
use super::{priming, SimView};
use crate::components;
use crate::components::behaviour;
use crate::components::GateView;
use crate::netlist;
use crate::netlist::{BitRef, Wire};
use crate::plugin_abi::{Bit, ValueView};
use crate::sim;

verus! {

/// A wire leads to a bit from an output bit with this level, of a pull resistor or of any other
/// gate.
pub open spec fn is_driven(s: SimView, dst: BitRef, by_pull: bool, level: Bit) -> bool {
    exists|k: int|
        0 <= k < s.wires.len() && (#[trigger] s.wires[k]).1 == dst && ({
            let src = s.wires[k].0;
            &&& (s.gates[src.0 as int] is PullResistor) == by_pull
            &&& components::signal::bit_of(s.outputs[src.0 as int][src.1 as int], src.2 as int)
                == level
        })
}

proof fn drivers_are_wires(s: SimView, dst: BitRef, by_pull: bool, level: Bit)
    ensures
        sim::has_driver(
            s.gates,
            s.outputs,
            netlist::drivers(s.wires, dst),
            by_pull,
            level,
        ) <==> is_driven(s, dst, by_pull, level),
{
    let list = netlist::drivers(s.wires, dst);
    if sim::has_driver(s.gates, s.outputs, list, by_pull, level) {
        let r = choose|r: BitRef| #[trigger]
            list.contains(r) && sim::drives(s.gates, s.outputs, r, by_pull, level);
        netlist::drivers_are_wired(s.wires, r, dst);
        let k = choose|k: int| 0 <= k < s.wires.len() && s.wires[k] == (r, dst);
        assert(s.wires[k].1 == dst);
    }
    if is_driven(s, dst, by_pull, level) {
        let k = choose|k: int|
            0 <= k < s.wires.len() && (#[trigger] s.wires[k]).1 == dst && ({
                let src = s.wires[k].0;
                &&& (s.gates[src.0 as int] is PullResistor) == by_pull
                &&& components::signal::bit_of(s.outputs[src.0 as int][src.1 as int], src.2 as int)
                    == level
            });
        let r = s.wires[k].0;
        assert(s.wires[k] == (r, dst));
        assert(s.wires.contains((r, dst)));
        netlist::drivers_are_wired(s.wires, r, dst);
        assert(list.contains(r) && sim::drives(s.gates, s.outputs, r, by_pull, level));
    }
}

/// An input bit reads what the wires to it drive: an error where one drives an error or two drive
/// different levels, a level where any drives it, and, where no gate but pull resistors drives
/// it, what those do in the same way. It floats where nothing drives it.
pub proof fn inputs_read_their_drivers(s: SimView, i: int, p: int, b: int)
    requires
        0 <= i <= usize::MAX,
        0 <= p < s.gates[i].input_count(),
        p <= usize::MAX,
        0 <= b < s.gates[i].input_width(p),
    ensures
        ({
            let dst = (i as usize, p as usize, b as u8);
            let one = is_driven(s, dst, false, Bit::One);
            let zero = is_driven(s, dst, false, Bit::Zero);
            let error = is_driven(s, dst, false, Bit::Error);
            let up = is_driven(s, dst, true, Bit::One);
            let down = is_driven(s, dst, true, Bit::Zero);
            let broken = is_driven(s, dst, true, Bit::Error);
            &&& s.inputs(i).len() == s.gates[i].input_count()
            &&& s.inputs(i)[p].len() == s.gates[i].input_width(p)
            &&& s.inputs(i)[p][b] == (if error || (one && zero) {
                Bit::Error
            } else if one {
                Bit::One
            } else if zero {
                Bit::Zero
            } else if broken || (up && down) {
                Bit::Error
            } else if up {
                Bit::One
            } else if down {
                Bit::Zero
            } else {
                Bit::Unknown
            })
        }),
{
    let dst = (i as usize, p as usize, b as u8);
    drivers_are_wires(s, dst, false, Bit::One);
    drivers_are_wires(s, dst, false, Bit::Zero);
    drivers_are_wires(s, dst, false, Bit::Error);
    drivers_are_wires(s, dst, true, Bit::One);
    drivers_are_wires(s, dst, true, Bit::Zero);
    drivers_are_wires(s, dst, true, Bit::Error);
    sim::point_by_levels(s.gates, s.outputs, netlist::drivers(s.wires, dst));
}

/// A wire leads from one gate to another.
pub open spec fn leads(wires: Seq<Wire>, from: int, to: int) -> bool {
    exists|k: int|
        0 <= k < wires.len() && (#[trigger] wires[k]).0.0 == from && wires[k].1.0 == to
}

/// A step takes all gates that are due at the earliest time, evaluates them on what their inputs
/// read before it, and leaves the others alone. What is pending afterwards is what was due later,
/// and, for a gate with a wire from one whose outputs changed, the time that it takes from then
/// on: its delay, one tick at least, and not before it is evaluated first.
pub proof fn steps_set_off_readers(s: SimView, e: (u64, usize))
    requires
        s.well_formed(),
        !s.is_settled(),
    ensures
        ({
            let (after, worked) = s.step();
            let t = after.time;
            let g = e.1 as int;
            let delay = s.gates[g].delay() as int;
            let soonest = if t + delay > t {
                t + delay
            } else {
                t + 1
            };
            let due = if soonest < s.first[g] {
                s.first[g] as int
            } else {
                soonest
            };
            &&& worked
            &&& exists|i: usize| #[trigger] s.queue.contains((t, i))
            &&& forall|x: (u64, usize)| #[trigger] s.queue.contains(x) ==> t <= x.0
            &&& after.wires == s.wires && after.ticks == s.ticks && after.first == s.first
            &&& after.gates.len() == s.gates.len() && after.outputs.len() == s.gates.len()
            &&& forall|i: int|
                0 <= i < s.gates.len() ==> #[trigger] after.gates[i] == (if s.queue.contains(
                    (t, i as usize),
                ) {
                    s.gates[i].eval(s.inputs(i)).0
                } else {
                    s.gates[i]
                })
            &&& forall|i: int|
                0 <= i < s.gates.len() ==> #[trigger] after.outputs[i] == (if s.queue.contains(
                    (t, i as usize),
                ) {
                    s.gates[i].eval(s.inputs(i)).1
                } else {
                    s.outputs[i]
                })
            &&& after.queue.contains(e) <==> (s.queue.contains(e) && e.0 > t) || (e.0 == due
                && exists|i: int|
                0 <= i < s.gates.len() && #[trigger] after.outputs[i] != s.outputs[i] && leads(
                    s.wires,
                    i,
                    g,
                ))
        }),
{
    sim::a_step_evaluates_the_earliest(s);
    let (after, worked) = s.step();
    let t = s.next_time();
    let g = e.1 as int;
    assert forall|i: int| 0 <= i < s.gates.len() implies (#[trigger] s.changes(t, i)
        <==> after.outputs[i] != s.outputs[i]) by {}
    if s.gives_rise_to(t, e) {
        let i = choose|i: int|
            0 <= i < s.gates.len() && #[trigger] s.changes(t, i) && priming::feeds(
                s.wires,
                i,
                e.1 as int,
            ) && e.0 == s.reacts_at(t, e.1 as int);
        assert(after.outputs[i] != s.outputs[i] && leads(s.wires, i, g));
    }
    if exists|i: int|
        0 <= i < s.gates.len() && #[trigger] after.outputs[i] != s.outputs[i] && leads(
            s.wires,
            i,
            g,
        ) {
        let i = choose|i: int|
            0 <= i < s.gates.len() && #[trigger] after.outputs[i] != s.outputs[i] && leads(
                s.wires,
                i,
                g,
            );
        assert(s.changes(t, i));
        assert(priming::feeds(s.wires, i, g));
    }
}

/// A tick advances the counter by one and gives every clock the level of that tick: low for the
/// first `low` of every `high + low` ticks and high for the others, the other way round after an
/// odd number of toggles. No other gate changes, nothing is output or forgotten yet, and exactly
/// the gates that changed become due, now or when they are evaluated first.
pub proof fn ticks_advance_the_clocks(s: SimView, i: int, q: int, r: int, e: (u64, usize))
    requires
        s.ticks < u64::MAX,
        0 <= i < s.gates.len(),
        e.1 < s.gates.len(),
    ensures
        ({
            let after = s.tick();
            let g = e.1 as int;
            let due = if s.time < s.first[g] {
                s.first[g]
            } else {
                s.time
            };
            &&& after.ticks == s.ticks + 1
            &&& after.time == s.time && after.outputs == s.outputs && after.wires == s.wires
            &&& after.first == s.first && after.gates.len() == s.gates.len()
            &&& !(s.gates[i] is Clock) ==> after.gates[i] == s.gates[i]
            &&& s.gates[i] matches GateView::Clock { high, low, clicks, .. } ==> (0 <= r < high + low
                && s.ticks + 1 == q * (high + low) + r ==> after.gates[i] == (GateView::Clock {
                high,
                low,
                clicks,
                sending: if (r < low) == (clicks % 2 == 0) {
                    Bit::Zero
                } else {
                    Bit::One
                },
            }))
            &&& after.queue.contains(e) <==> s.queue.contains(e) || (e.0 == due && after.gates[g]
                != s.gates[g])
        }),
{
    if let GateView::Clock { high, low, clicks, sending } = s.gates[i] {
        if 0 <= r < high + low && s.ticks + 1 == q * (high + low) + r {
            behaviour::clocks_are_low_first(
                high,
                low,
                clicks,
                sending,
                (s.ticks + 1) as u64,
                q,
                r,
                Seq::empty(),
            );
            let g = components::memory::ticked(s.gates[i], (s.ticks + 1) as u64);
            assert(g.eval(Seq::empty()).1[0][0] == g->Clock_sending);
        }
    }
}

/// An action changes the one gate that performs it, which becomes due, now or when it is
/// evaluated first. A refused one changes nothing.
pub proof fn actions_change_one_gate(
    s: SimView,
    gate: usize,
    name: Seq<char>,
    arg: Option<ValueView>,
    i: int,
    e: (u64, usize),
)
    requires
        gate < s.gates.len(),
        0 <= i < s.gates.len(),
    ensures
        ({
            let (after, outcome) = s.invoke(gate, name, arg);
            let (g, said) = s.gates[gate as int].invoke(name, arg);
            let due = if s.time < s.first[gate as int] {
                s.first[gate as int]
            } else {
                s.time
            };
            &&& outcome == said
            &&& outcome is Err ==> after == s
            &&& outcome is Ok ==> {
                &&& after.gates.len() == s.gates.len()
                &&& after.gates[i] == (if i == gate {
                    g
                } else {
                    s.gates[i]
                })
                &&& after.time == s.time && after.outputs == s.outputs && after.wires == s.wires
                &&& after.first == s.first && after.ticks == s.ticks
                &&& after.queue.contains(e) <==> s.queue.contains(e) || e == (due, gate)
            }
        }),
{
}

/// A simulation starts at time zero with its counter at zero, nothing driven yet, and every gate
/// due exactly once. A gate that no wire leads to is due at zero. One that is not on a cycle of
/// wires nor behind one is due one tick after the last of the gates that lead to it; the others
/// are due at zero.
pub proof fn simulations_start(
    netlist: netlist::Netlist,
    s: SimView,
    resolved: Set<int>,
    g: int,
    e: (u64, usize),
)
    requires
        netlist.starts_as(s),
        priming::is_priming(s.wires, s.gates.len(), s.first, resolved),
        0 <= g < s.gates.len(),
    ensures
        s.time == 0 && s.ticks == 0,
        s.first.len() == s.gates.len(),
        s.queue.contains(e) <==> e.1 < s.gates.len() && e.0 == s.first[e.1 as int],
        s.outputs.len() == s.gates.len(),
        s.outputs[g].len() == s.gates[g].output_count(),
        forall|p: int|
            0 <= p < s.outputs[g].len() ==> #[trigger] s.outputs[g][p] == seq![Bit::Unknown],
        (forall|k: int| 0 <= k < s.wires.len() ==> (#[trigger] s.wires[k]).1.0 != g)
            ==> s.first[g] == 0 && resolved.contains(g),
        resolved.contains(g) ==> forall|i: int|
            #[trigger] leads(s.wires, i, g) ==> resolved.contains(i) && s.first[i] < s.first[g],
        resolved.contains(g) && s.first[g] > 0 ==> exists|i: int| #[trigger]
            leads(s.wires, i, g) && s.first[g] == s.first[i] + 1,
        !resolved.contains(g) ==> s.first[g] == 0 && exists|i: int| #[trigger]
            leads(s.wires, i, g) && !resolved.contains(i),
{
    assert forall|i: int| #[trigger] leads(s.wires, i, g) implies priming::feeds(
        s.wires,
        i,
        g,
    ) by {}
    assert forall|i: int| #[trigger] priming::feeds(s.wires, i, g) implies leads(
        s.wires,
        i,
        g,
    ) by {}
    if resolved.contains(g) {
        assert(priming::in_order(s.wires, s.first, resolved, g));
    } else {
        assert(priming::out_of_order(s.wires, s.first, resolved, g));
    }
}

} // verus!
