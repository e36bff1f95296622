//! Event-driven simulation.
//!
//! Events are pairs of a time and a gate. Each step takes all events at the earliest time and
//! evaluates their gates as one batch: all of them read what was committed before, and what
//! they change is read one tick later at the earliest. So the gates of a batch can be
//! evaluated in any order, and are evaluated in parallel.
use rayon::prelude::{
    IndexedParallelIterator, IntoParallelRefIterator, IntoParallelRefMutIterator, ParallelIterator,
};
use vstd::prelude::*;
use crate::components;
use crate::components::{Gate, GateView};
use crate::netlist;
use crate::netlist::{BitRef, CircuitTemplate, Elaborated, Netlist, NetlistErrorView, PinRef, Wire};
use crate::plugin_abi;
use crate::plugin_abi::{
    ActionError, ActionErrorView, Bit, Component, ReadoutError, Signal, Value, ValueView,
};

pub mod meaning;
pub mod priming;
pub mod queue;
pub mod stagger;

use priming::{gate_list, priming_depths};
use queue::EventQueue;

verus! {

/// Simulated time, in units of propagation delay.
pub type Time = u64;

/// No gate's delay is longer.
pub const MAX_DELAY: u64 = 65535;

/// The mathematical content of a [`Simulation`].
#[verifier::ext_equal]
pub struct SimView {
    pub gates: Seq<GateView>,
    pub wires: Seq<Wire>,
    /// The committed output values, by gate and pin.
    pub outputs: Seq<Seq<Seq<Bit>>>,
    pub time: u64,
    /// The pending events: time and gate.
    pub queue: Set<(u64, usize)>,
    /// The shared tick counter of all clocks.
    pub ticks: u64,
    /// When each gate is evaluated first. No gate is scheduled earlier.
    pub first: Seq<u64>,
}

/// The later one of two times.
pub open spec fn later(a: int, b: int) -> int {
    if a >= b {
        a
    } else {
        b
    }
}

/// What the first `k` of a list of drivers put on a point, counting the pull resistors only or
/// all others only.
pub open spec fn driven(
    gates: Seq<GateView>,
    outputs: Seq<Seq<Seq<Bit>>>,
    list: Seq<BitRef>,
    pulls: bool,
    k: nat,
) -> Bit
    decreases k,
{
    if k == 0 {
        Bit::Unknown
    } else {
        let before = driven(gates, outputs, list, pulls, (k - 1) as nat);
        let (g, p, b) = list[k - 1];
        if (gates[g as int] is PullResistor) == pulls {
            plugin_abi::combined(
                before,
                components::signal::bit_of(outputs[g as int][p as int], b as int),
            )
        } else {
            before
        }
    }
}

/// What a point with these drivers reads: the combination of its real drivers, or, where they
/// leave it floating, what the pull resistors say.
pub open spec fn point(
    gates: Seq<GateView>,
    outputs: Seq<Seq<Seq<Bit>>>,
    list: Seq<BitRef>,
) -> Bit {
    let strong = driven(gates, outputs, list, false, list.len());
    if strong == Bit::Unknown {
        driven(gates, outputs, list, true, list.len())
    } else {
        strong
    }
}

impl SimView {
    /// What a gate's input pins read.
    pub open spec fn inputs(self, i: int) -> Seq<Seq<Bit>> {
        Seq::new(
            self.gates[i].input_count(),
            |p: int|
                Seq::new(
                    self.gates[i].input_width(p) as nat,
                    |b: int|
                        point(
                            self.gates,
                            self.outputs,
                            netlist::drivers(self.wires, (i as usize, p as usize, b as u8)),
                        ),
                ),
        )
    }

    /// A gate and its output pins when it is evaluated now.
    pub open spec fn eval(self, i: int) -> (GateView, Seq<Seq<Bit>>) {
        self.gates[i].eval(self.inputs(i))
    }

    /// Gate `i` has a pending event.
    pub open spec fn is_queued(self, i: int) -> bool {
        exists|t: u64| #[trigger] self.queue.contains((t, i as usize))
    }

    /// A batch at time `t` includes gate `i` and changes its outputs.
    pub open spec fn changes(self, t: u64, i: int) -> bool {
        self.queue.contains((t, i as usize)) && self.eval(i).1 != self.outputs[i]
    }

    /// The gates after a batch at time `t`.
    pub open spec fn gates_after(self, t: u64) -> Seq<GateView> {
        Seq::new(
            self.gates.len(),
            |i: int|
                if self.queue.contains((t, i as usize)) {
                    self.eval(i).0
                } else {
                    self.gates[i]
                },
        )
    }

    /// The committed outputs after a batch at time `t`.
    pub open spec fn outputs_after(self, t: u64) -> Seq<Seq<Seq<Bit>>> {
        Seq::new(
            self.gates.len(),
            |i: int|
                if self.queue.contains((t, i as usize)) {
                    self.eval(i).1
                } else {
                    self.outputs[i]
                },
        )
    }

    /// When gate `g` reacts to a change at time `t`: after its delay, but one tick later at
    /// least, and not before it is to be evaluated first.
    pub open spec fn reacts_at(self, t: u64, g: int) -> int {
        later(t + reaction(self.gates[g]), self.first[g] as int)
    }

    /// The event is one that a batch at time `t` gives rise to: a gate that reads a changed
    /// gate, when it reacts.
    pub open spec fn gives_rise_to(self, t: u64, e: (u64, usize)) -> bool {
        exists|i: int|
            0 <= i < self.gates.len() && #[trigger] self.changes(t, i) && priming::feeds(
                self.wires,
                i,
                e.1 as int,
            ) && e.0 == self.reacts_at(t, e.1 as int)
    }

    /// The simulation after the batch at time `t`.
    pub open spec fn stepped(self, t: u64) -> SimView {
        SimView {
            gates: self.gates_after(t),
            wires: self.wires,
            outputs: self.outputs_after(t),
            time: t,
            queue: Set::new(
                |e: (u64, usize)|
                    (self.queue.contains(e) && e.0 != t) || self.gives_rise_to(t, e),
            ),
            ticks: self.ticks,
            first: self.first,
        }
    }

    /// The simulation after one step, and whether there was anything to do.
    pub open spec fn step(self) -> (SimView, bool) {
        if self.queue == Set::<(u64, usize)>::empty() {
            (self, false)
        } else {
            (self.stepped(self.next_time()), true)
        }
    }

    /// The earliest time of a pending event.
    pub open spec fn next_time(self) -> u64 {
        choose|t: u64| queue::is_earliest(self.queue, t)
    }

    /// Whatever reads a gate of the batch at time `t` can react to it before the time runs out.
    pub open spec fn leaves_room(self, t: u64) -> bool {
        forall|i: int, g: int|
            0 <= i < self.gates.len() && self.queue.contains((t, i as usize))
                && #[trigger] priming::feeds(self.wires, i, g) ==> t + reaction(self.gates[g])
                <= u64::MAX
    }

    /// Whatever reads a gate that the batch at time `t` changes can react to it before the time
    /// runs out.
    pub open spec fn reactions_fit(self, t: u64) -> bool {
        forall|i: int, g: int|
            0 <= i < self.gates.len() && self.changes(t, i) && #[trigger] priming::feeds(
                self.wires,
                i,
                g,
            ) ==> t + reaction(self.gates[g]) <= u64::MAX
    }

    /// The next batch, if there is one, does not run out of time.
    pub open spec fn can_step(self) -> bool {
        forall|t: u64| #[trigger] queue::is_earliest(self.queue, t) ==> self.reactions_fit(t)
    }

    /// What reads the gates of the next batch can react to it before the time runs out.
    pub open spec fn has_headroom(self) -> bool {
        forall|t: u64| #[trigger] queue::is_earliest(self.queue, t) ==> self.leaves_room(t)
    }

    /// The simulation after `n` steps.
    pub open spec fn steps(self, n: nat) -> SimView
        decreases n,
    {
        if n == 0 {
            self
        } else {
            self.steps((n - 1) as nat).step().0
        }
    }

    /// The simulation after the shared tick counter advanced by one: the clocks whose level
    /// changed are to be evaluated.
    pub open spec fn tick(self) -> SimView {
        let t = (self.ticks + 1) as u64;
        let after = Seq::new(
            self.gates.len(),
            |i: int| components::memory::ticked(self.gates[i], t),
        );
        SimView {
            gates: after,
            queue: Set::new(
                |e: (u64, usize)|
                    self.queue.contains(e) || (e.1 < self.gates.len() && e.0 == later(
                        self.time as int,
                        self.first[e.1 as int] as int,
                    ) && after[e.1 as int] != self.gates[e.1 as int]),
            ),
            ticks: t,
            ..self
        }
    }

    /// The simulation after an action on a gate, and the action's outcome. A gate that
    /// performed an action is to be evaluated.
    pub open spec fn invoke(self, gate: usize, name: Seq<char>, arg: Option<ValueView>) -> (
        SimView,
        Result<(), ActionErrorView>,
    ) {
        let (after, outcome) = self.gates[gate as int].invoke(name, arg);
        match outcome {
            Ok(()) => (
                SimView {
                    gates: self.gates.update(gate as int, after),
                    queue: self.queue.insert(
                        (later(self.time as int, self.first[gate as int] as int) as u64, gate),
                    ),
                    ..self
                },
                Ok(()),
            ),
            Err(e) => (self, Err(e)),
        }
    }

    /// The state that stepping ends in: the first one in which nothing is pending or the time
    /// runs out.
    pub open spec fn quiesced(self) -> SimView {
        choose|after: SimView| #[trigger] runs_to(self, after)
    }

    /// Every gate can take `n` more actions.
    pub open spec fn tolerates(self, n: nat) -> bool {
        forall|i: int| 0 <= i < self.gates.len() ==> (#[trigger] self.gates[i]).tolerates(n)
    }

    /// Nothing is pending.
    pub open spec fn is_settled(self) -> bool {
        self.queue == Set::<(u64, usize)>::empty()
    }

    /// Evaluating gate `i` would change neither it nor its outputs.
    pub open spec fn at_rest(self, i: int) -> bool {
        self.eval(i) == (self.gates[i], self.outputs[i])
    }

    /// What holds of every simulation.
    pub open spec fn well_formed(self) -> bool {
        &&& netlist::wires_ok(self.gates, self.wires)
        &&& self.gates.len() <= usize::MAX
        &&& forall|i: int| 0 <= i < self.gates.len() ==> (#[trigger] self.gates[i]).runnable()
        &&& self.outputs.len() == self.gates.len()
        &&& forall|i: int|
            0 <= i < self.gates.len() ==> (#[trigger] self.outputs[i]).len()
                == self.gates[i].output_count()
        &&& forall|e: (u64, usize)| #[trigger]
            self.queue.contains(e) ==> e.1 < self.gates.len() && e.0 >= self.time && e.0
                >= self.first[e.1 as int]
        &&& self.first.len() == self.gates.len()
        &&& forall|i: int|
            0 <= i < self.gates.len() && self.gates[i].settles() && !self.is_queued(i)
                ==> #[trigger] self.at_rest(i)
    }
}

/// The delay after which a gate reacts: its own, but one tick at least.
pub open spec fn reaction(g: GateView) -> u64 {
    if g.delay() == 0 {
        1
    } else {
        g.delay()
    }
}

/// No gate reacts later than the longest delay.
proof fn reaction_bound(g: GateView)
    ensures
        1 <= reaction(g) <= MAX_DELAY,
{
    match g {
        GateView::Multiplier { bits } | GateView::Divider { bits } => {
            assert(0 <= bits * (bits + 2) <= 65535) by (nonlinear_arith)
                requires
                    bits <= 255,
            ;
        },
        _ => {},
    }
}

/// The gates of two simulations have the same shapes.
pub open spec fn same_shapes(a: Seq<GateView>, b: Seq<GateView>) -> bool {
    &&& a.len() == b.len()
    &&& forall|i: int| 0 <= i < a.len() ==> components::same_shape(#[trigger] a[i], b[i])
}

proof fn wires_stay_ok(a: Seq<GateView>, b: Seq<GateView>, wires: Seq<Wire>)
    requires
        same_shapes(a, b),
        netlist::wires_ok(a, wires),
    ensures
        netlist::wires_ok(b, wires),
{
    assert forall|i: int| 0 <= i < wires.len() implies netlist::is_source(
        b,
        (#[trigger] wires[i]).0,
    ) && netlist::is_target(b, wires[i].1) by {
        let (src, dst) = wires[i];
        assert(netlist::is_source(a, src) && netlist::is_target(a, dst));
        assert(components::same_shape(a[src.0 as int], b[src.0 as int]));
        assert(components::same_shape(a[dst.0 as int], b[dst.0 as int]));
    }
}

proof fn driven_unchanged(s: SimView, t: SimView, list: Seq<BitRef>, pulls: bool, k: nat)
    requires
        k <= list.len(),
        forall|j: int|
            0 <= j < list.len() ==> s.outputs[(#[trigger] list[j]).0 as int]
                == t.outputs[list[j].0 as int] && (s.gates[list[j].0 as int] is PullResistor)
                == (t.gates[list[j].0 as int] is PullResistor),
    ensures
        driven(s.gates, s.outputs, list, pulls, k) == driven(t.gates, t.outputs, list, pulls, k),
    decreases k,
{
    if k > 0 {
        driven_unchanged(s, t, list, pulls, (k - 1) as nat);
        assert(s.outputs[list[k - 1].0 as int] == t.outputs[list[k - 1].0 as int]);
    }
}

/// A gate reads the same as long as the outputs of the gates that feed it are the same.
proof fn inputs_unchanged(s: SimView, t: SimView, i: int)
    requires
        s.wires == t.wires,
        same_shapes(s.gates, t.gates),
        netlist::wires_ok(s.gates, s.wires),
        0 <= i < s.gates.len() <= usize::MAX,
        forall|g: int| #[trigger]
            priming::feeds(s.wires, g, i) ==> s.outputs[g] == t.outputs[g],
    ensures
        s.inputs(i) == t.inputs(i),
{
    assert(components::same_shape(s.gates[i], t.gates[i]));
    let a = s.inputs(i);
    let b = t.inputs(i);
    assert forall|p: int| 0 <= p < a.len() implies #[trigger] a[p] == b[p] by {
        assert(s.gates[i].input_width(p) == t.gates[i].input_width(p));
        assert forall|q: int| 0 <= q < a[p].len() implies a[p][q] == b[p][q] by {
            let dst: BitRef = (i as usize, p as usize, q as u8);
            let list = netlist::drivers(s.wires, dst);
            assert forall|j: int| 0 <= j < list.len() implies s.outputs[(
            #[trigger] list[j]).0 as int] == t.outputs[list[j].0 as int] && (
            s.gates[list[j].0 as int] is PullResistor) == (
            t.gates[list[j].0 as int] is PullResistor) by {
                assert(list.contains(list[j]));
                netlist::drivers_are_wired(s.wires, list[j], dst);
                let w = choose|w: int| 0 <= w < s.wires.len() && s.wires[w] == (list[j], dst);
                assert(s.wires[w].0.0 == list[j].0 && s.wires[w].1.0 == i);
                assert(priming::feeds(s.wires, list[j].0 as int, i));
                assert(netlist::is_source(s.gates, s.wires[w].0));
                assert(components::same_shape(
                    s.gates[list[j].0 as int],
                    t.gates[list[j].0 as int],
                ));
            }
            driven_unchanged(s, t, list, false, list.len());
            driven_unchanged(s, t, list, true, list.len());
        }
        assert(a[p] =~= b[p]);
    }
    assert(a =~= b);
}

/// A step keeps what holds of every simulation.
pub proof fn step_keeps_well_formed(s: SimView, t: u64)
    requires
        s.well_formed(),
        queue::is_earliest(s.queue, t),
        s.reactions_fit(t),
    ensures
        s.stepped(t).well_formed(),
        same_shapes(s.gates, s.stepped(t).gates),
{
    let n = s.stepped(t);
    assert forall|i: int| 0 <= i < s.gates.len() implies components::same_shape(
        #[trigger] s.gates[i],
        n.gates[i],
    ) && n.gates[i].runnable() && n.outputs[i].len() == n.gates[i].output_count() by {
        assert(s.gates[i].runnable());
        components::eval_keeps_shape(s.gates[i], s.inputs(i));
        assert(s.outputs[i].len() == s.gates[i].output_count());
    }
    wires_stay_ok(s.gates, n.gates, s.wires);
    assert forall|e: (u64, usize)| #[trigger] n.queue.contains(e) implies e.1 < n.gates.len() && e.0
        >= n.time && e.0 >= n.first[e.1 as int] by {
        if s.gives_rise_to(t, e) {
            let i = choose|i: int|
                0 <= i < s.gates.len() && #[trigger] s.changes(t, i) && priming::feeds(
                    s.wires,
                    i,
                    e.1 as int,
                ) && e.0 == s.reacts_at(t, e.1 as int);
            let w = choose|w: int|
                0 <= w < s.wires.len() && (#[trigger] s.wires[w]).0.0 == i && s.wires[w].1.0
                    == e.1 as int;
            assert(netlist::is_target(s.gates, s.wires[w].1));
        }
    }
    assert forall|i: int|
        0 <= i < n.gates.len() && n.gates[i].settles() && !n.is_queued(i) implies #[trigger] n.at_rest(
        i,
    ) by {
        assert forall|g: int| #[trigger] priming::feeds(s.wires, g, i) implies s.outputs[g]
            == n.outputs[g] by {
            let w = choose|w: int|
                0 <= w < s.wires.len() && (#[trigger] s.wires[w]).0.0 == g && s.wires[w].1.0 == i;
            assert(netlist::is_source(s.gates, s.wires[w].0));
            if s.changes(t, g) {
                reaction_bound(s.gates[i]);
                assert(priming::feeds(s.wires, g, i));
                let e = (s.reacts_at(t, i) as u64, i as usize);
                assert(s.gives_rise_to(t, e));
                assert(n.queue.contains(e));
                assert(n.is_queued(i));
            }
        }
        inputs_unchanged(s, n, i);
        assert(components::same_shape(s.gates[i], n.gates[i]));
        if s.queue.contains((t, i as usize)) {
            assert(s.gates[i].runnable());
            components::eval_is_idempotent(s.gates[i], s.inputs(i));
        } else {
            if s.is_queued(i) {
                let u = choose|u: u64| #[trigger] s.queue.contains((u, i as usize));
                assert(n.queue.contains((u, i as usize)));
            }
            assert(s.at_rest(i));
        }
    }
}

/// A tick keeps what holds of every simulation.
pub proof fn tick_keeps_well_formed(s: SimView)
    requires
        s.well_formed(),
        s.ticks < u64::MAX,
    ensures
        s.tick().well_formed(),
        same_shapes(s.gates, s.tick().gates),
{
    let n = s.tick();
    assert forall|i: int| 0 <= i < s.gates.len() implies components::same_shape(
        #[trigger] s.gates[i],
        n.gates[i],
    ) && n.gates[i].runnable() && n.outputs[i].len() == n.gates[i].output_count() by {
        assert(s.gates[i].runnable());
        components::tick_keeps_shape(s.gates[i], n.ticks);
        assert(s.outputs[i].len() == s.gates[i].output_count());
    }
    wires_stay_ok(s.gates, n.gates, s.wires);
    assert forall|e: (u64, usize)| #[trigger] n.queue.contains(e) implies e.1 < n.gates.len() && e.0
        >= n.time && e.0 >= n.first[e.1 as int] by {
    }
    assert forall|i: int|
        0 <= i < n.gates.len() && n.gates[i].settles() && !n.is_queued(i) implies #[trigger] n.at_rest(
        i,
    ) by {
        assert(components::same_shape(s.gates[i], n.gates[i]));
        if n.gates[i] != s.gates[i] {
            assert(n.queue.contains((later(s.time as int, s.first[i] as int) as u64, i as usize)));
        }
        if s.is_queued(i) {
            let u = choose|u: u64| #[trigger] s.queue.contains((u, i as usize));
            assert(n.queue.contains((u, i as usize)));
        }
        assert(s.at_rest(i));
        inputs_unchanged(s, n, i);
    }
}

/// An action keeps what holds of every simulation.
pub proof fn invoke_keeps_well_formed(
    s: SimView,
    gate: usize,
    name: Seq<char>,
    arg: Option<ValueView>,
)
    requires
        s.well_formed(),
        gate < s.gates.len(),
    ensures
        s.invoke(gate, name, arg).0.well_formed(),
        same_shapes(s.gates, s.invoke(gate, name, arg).0.gates),
{
    let n = s.invoke(gate, name, arg).0;
    assert(s.gates[gate as int].runnable());
    components::invoke_keeps_shape(s.gates[gate as int], name, arg);
    assert forall|i: int| 0 <= i < s.gates.len() implies components::same_shape(
        #[trigger] s.gates[i],
        n.gates[i],
    ) && n.gates[i].runnable() && n.outputs[i].len() == n.gates[i].output_count() by {
        assert(s.gates[i].runnable());
        assert(s.outputs[i].len() == s.gates[i].output_count());
    }
    wires_stay_ok(s.gates, n.gates, s.wires);
    assert forall|e: (u64, usize)| #[trigger] n.queue.contains(e) implies e.1 < n.gates.len() && e.0
        >= n.time && e.0 >= n.first[e.1 as int] by {
    }
    assert forall|i: int|
        0 <= i < n.gates.len() && n.gates[i].settles() && !n.is_queued(i) implies #[trigger] n.at_rest(
        i,
    ) by {
        if s.is_queued(i) {
            let u = choose|u: u64| #[trigger] s.queue.contains((u, i as usize));
            assert(n.queue.contains((u, i as usize)));
        }
        if i == gate && n != s {
            assert(n.queue.contains((later(s.time as int, s.first[i] as int) as u64, gate)));
        }
        assert(s.at_rest(i));
        inputs_unchanged(s, n, i);
    }
}

/// A running simulation of a netlist.
pub struct Simulation {
    netlist: Netlist,
    /// The committed output values, by gate and pin.
    outputs: Vec<Vec<Signal>>,
    time: Time,
    queue: EventQueue,
    /// The one tick counter that all clocks share. It advances through `tick` only, while
    /// `time` advances within a settling.
    global_ticks: u64,
    /// The numbers of the clocks among the gates.
    clock_gates: Vec<usize>,
    /// When each gate is evaluated first.
    first: Vec<u64>,
    wires: Ghost<Seq<Wire>>,
}

/// The contents of lists of signals.
pub open spec fn output_views(outputs: Seq<Vec<Signal>>) -> Seq<Seq<Seq<Bit>>> {
    Seq::new(outputs.len(), |i: int| plugin_abi::signals(outputs[i]@))
}

/// Before anything is computed, every output pin reads one undriven bit.
pub open spec fn placeholders(gates: Seq<GateView>) -> Seq<Seq<Seq<Bit>>> {
    Seq::new(
        gates.len(),
        |i: int| Seq::new(gates[i].output_count(), |p: int| seq![Bit::Unknown]),
    )
}

/// Every gate is to be evaluated once, at its own time.
pub open spec fn primed(depth: Seq<u64>) -> Set<(u64, usize)> {
    Set::new(|e: (u64, usize)| e.1 < depth.len() && e.0 == depth[e.1 as int])
}

impl View for Simulation {
    type V = SimView;

    closed spec fn view(&self) -> SimView {
        SimView {
            gates: netlist::gate_views(self.netlist.gates@),
            wires: self.wires@,
            outputs: output_views(self.outputs@),
            time: self.time,
            queue: self.queue@,
            ticks: self.global_ticks,
            first: self.first@,
        }
    }
}

impl Netlist {
    /// The netlist is consistently wired, and its gates can be simulated.
    pub open spec fn can_simulate(&self) -> bool {
        &&& exists|wires: Seq<Wire>| #[trigger]
            self.is_wired(netlist::gate_views(self.gates@), wires)
        &&& forall|i: int| 0 <= i < self.gates@.len() ==> (#[trigger] self.gates@[i])@.runnable()
    }

    /// The state is one in which a simulation of the netlist starts: its gates and wires, no
    /// output computed yet, time and ticks at 0, and every gate scheduled at its depth.
    pub open spec fn starts_as(&self, s: SimView) -> bool {
        &&& self.is_wired(s.gates, s.wires)
        &&& s.outputs == placeholders(s.gates)
        &&& s.time == 0
        &&& s.ticks == 0
        &&& exists|resolved: Set<int>| #[trigger]
            priming::is_priming(s.wires, s.gates.len(), s.first, resolved)
        &&& s.queue == primed(s.first)
    }
}

proof fn stays_wired(
    before: Netlist,
    after: Netlist,
    gates: Seq<GateView>,
    wires: Seq<Wire>,
)
    requires
        before.is_wired(gates, wires),
        after.input_sources == before.input_sources,
        after.fanout == before.fanout,
        same_shapes(gates, netlist::gate_views(after.gates@)),
    ensures
        after.is_wired(netlist::gate_views(after.gates@), wires),
{
    let now = netlist::gate_views(after.gates@);
    wires_stay_ok(gates, now, wires);
    assert forall|g: int| 0 <= g < gates.len() implies gates[g].input_count()
        == now[g].input_count() && gates[g].output_count() == now[g].output_count() && (forall|
        p: int,
    |
        gates[g].input_width(p) == now[g].input_width(p)) && (forall|p: int|
        gates[g].output_width(p) == now[g].output_width(p)) by {
        assert(components::same_shape(gates[g], now[g]));
    }
    let t = after.input_sources@;
    let u = after.fanout@;
    assert forall|g: int| 0 <= g < now.len() implies (#[trigger] t[g])@.len()
        == now[g].input_count() by {
        assert(t[g]@.len() == gates[g].input_count());
    }
    assert forall|g: int| 0 <= g < now.len() implies (#[trigger] u[g])@.len()
        == now[g].output_count() by {
        assert(u[g]@.len() == gates[g].output_count());
    }
    assert forall|g: int, p: int|
        0 <= g < now.len() && 0 <= p < now[g].input_count() implies (#[trigger] t[g]@[p])@.len()
        == now[g].input_width(p) by {
        assert(t[g]@[p]@.len() == gates[g].input_width(p));
    }
    assert forall|g: int, p: int|
        0 <= g < now.len() && 0 <= p < now[g].output_count() implies (#[trigger] u[g]@[p])@.len()
        == now[g].output_width(p) by {
        assert(u[g]@[p]@.len() == gates[g].output_width(p));
    }
    assert forall|g: int, p: int, b: int|
        0 <= g < now.len() && 0 <= p < now[g].input_count() && 0 <= b < now[g].input_width(
            p,
        ) implies (#[trigger] t[g]@[p]@[b])@ == netlist::drivers(
        wires,
        (g as usize, p as usize, b as u8),
    ) by {
        assert(t[g]@[p]@[b]@ == netlist::drivers(wires, (g as usize, p as usize, b as u8)));
    }
    assert forall|g: int, p: int, b: int|
        0 <= g < now.len() && 0 <= p < now[g].output_count() && 0 <= b < now[g].output_width(
            p,
        ) implies (#[trigger] u[g]@[p]@[b])@ == netlist::consumers(
        wires,
        (g as usize, p as usize, b as u8),
    ) by {
        assert(u[g]@[p]@[b]@ == netlist::consumers(wires, (g as usize, p as usize, b as u8)));
    }
}

/// Two lists of signals are the same.
fn same_signals(a: &Vec<Signal>, b: &Vec<Signal>) -> (r: bool)
    ensures
        r == (plugin_abi::signals(a@) == plugin_abi::signals(b@)),
{
    let ghost x = plugin_abi::signals(a@);
    let ghost y = plugin_abi::signals(b@);
    if a.len() != b.len() {
        assert(x.len() != y.len());
        return false;
    }
    for i in 0..a.len()
        invariant
            x == plugin_abi::signals(a@),
            y == plugin_abi::signals(b@),
            a@.len() == b@.len(),
            forall|j: int| 0 <= j < i ==> x[j] == y[j],
    {
        if a[i].len() != b[i].len() {
            assert(x[i as int].len() != y[i as int].len());
            return false;
        }
        let width: usize = a[i].len();
        for k in 0..width
            invariant
                x == plugin_abi::signals(a@),
                y == plugin_abi::signals(b@),
                a@.len() == b@.len(),
                i < a@.len(),
                width == a@[i as int]@.len(),
                width == b@[i as int]@.len(),
                forall|j: int| 0 <= j < k ==> x[i as int][j] == y[i as int][j],
        {
            if a[i][k] != b[i][k] {
                assert(x[i as int][k as int] != y[i as int][k as int]);
                return false;
            }
        }
        assert(x[i as int] =~= y[i as int]);
    }
    assert(x =~= y);
    true
}

/// What evaluating one gate of a batch does: nothing where it has no inputs gathered.
pub open spec fn slot_result(
    before: Gate,
    inputs: Option<Vec<Signal>>,
    after: Gate,
    out: Option<Vec<Signal>>,
) -> bool {
    match inputs {
        None => after == before && out is None,
        Some(ins) => match out {
            None => false,
            Some(outputs) => (after@, plugin_abi::signals(outputs@)) == before@.eval(
                plugin_abi::signals(ins@),
            ),
        },
    }
}

/// Evaluates one gate of a batch.
fn eval_slot(gate: &mut Gate, inputs: &Option<Vec<Signal>>) -> (out: Option<Vec<Signal>>)
    requires
        *inputs matches Some(ins) ==> old(gate)@.valid() && old(gate)@.accepts(
            plugin_abi::signals(ins@),
        ),
    ensures
        slot_result(*old(gate), *inputs, *final(gate), out),
{
    match inputs {
        None => None,
        Some(ins) => Some(gate.eval(ins.as_slice())),
    }
}

/// Evaluates a batch in parallel, with `par_iter_mut`, `zip`, `map` and `collect` of rayon's
/// parallel iterators: they hand each gate together with the inputs at the same index to
/// [`eval_slot`] once, and collect what it returns in the order of the gates.
#[verifier::external_body]
fn eval_batch(gates: &mut Vec<Gate>, inputs: &Vec<Option<Vec<Signal>>>) -> (out: Vec<
    Option<Vec<Signal>>,
>)
    requires
        old(gates)@.len() == inputs@.len(),
        forall|i: int|
            0 <= i < inputs@.len() ==> (#[trigger] inputs@[i] matches Some(ins) ==> old(
                gates,
            )@[i]@.valid() && old(gates)@[i]@.accepts(plugin_abi::signals(ins@))),
    ensures
        final(gates)@.len() == inputs@.len(),
        out@.len() == inputs@.len(),
        forall|i: int|
            0 <= i < inputs@.len() ==> slot_result(
                old(gates)@[i],
                inputs@[i],
                final(gates)@[i],
                #[trigger] out@[i],
            ),
{
    gates.par_iter_mut().zip(inputs.par_iter()).map(|(gate, ins)| eval_slot(gate, ins)).collect()
}

/// `after` is `before` after `n` steps, and it is the first state on the way in which nothing
/// is pending or the time runs out.
pub open spec fn ran(before: SimView, after: SimView, n: nat) -> bool {
    &&& after == before.steps(n)
    &&& after.is_settled() || !after.has_headroom()
    &&& forall|k: nat|
        k < n ==> !(#[trigger] before.steps(k)).is_settled() && before.steps(k).has_headroom()
}

/// Stepping from `before` on ends in `after`.
pub open spec fn runs_to(before: SimView, after: SimView) -> bool {
    exists|n: nat| #[trigger] ran(before, after, n)
}

/// How far the next event is from the end of time.
spec fn room(s: SimView) -> int {
    if exists|t: u64| queue::is_earliest(s.queue, t) {
        u64::MAX - s.next_time() + 1
    } else {
        0
    }
}

/// What is pending after a step is later than the step: no gate is scheduled into the batch
/// that schedules it.
pub proof fn step_moves_on(s: SimView, t: u64)
    requires
        queue::is_earliest(s.queue, t),
    ensures
        forall|e: (u64, usize)| #[trigger] s.stepped(t).queue.contains(e) ==> e.0 > t,
{
    assert forall|e: (u64, usize)| #[trigger] s.stepped(t).queue.contains(e) implies e.0 > t by {
        reaction_bound(s.gates[e.1 as int]);
        assert(s.queue.contains(e) ==> t <= e.0);
    }
}

proof fn something_is_earliest(q: Set<(u64, usize)>, e: (u64, usize)) -> (t: u64)
    requires
        q.contains(e),
    ensures
        queue::is_earliest(q, t),
    decreases e.0,
{
    if exists|f: (u64, usize)| #[trigger] q.contains(f) && f.0 < e.0 {
        let f = choose|f: (u64, usize)| #[trigger] q.contains(f) && f.0 < e.0;
        something_is_earliest(q, f)
    } else {
        assert(q.contains((e.0, e.1)));
        e.0
    }
}

/// While something is pending, there is an earliest time.
pub(crate) proof fn next_is_earliest(s: SimView)
    requires
        !s.is_settled(),
    ensures
        queue::is_earliest(s.queue, s.next_time()),
{
    assert(exists|e: (u64, usize)| s.queue.contains(e)) by {
        if forall|e: (u64, usize)| !s.queue.contains(e) {
            assert(s.queue =~= Set::<(u64, usize)>::empty());
        }
    }
    let e = choose|e: (u64, usize)| s.queue.contains(e);
    let t = something_is_earliest(s.queue, e);
}

/// The earliest time is unique.
proof fn earliest_is_next(s: SimView, t: u64)
    requires
        queue::is_earliest(s.queue, t),
    ensures
        s.next_time() == t,
        s.queue != Set::<(u64, usize)>::empty(),
{
    let u = s.next_time();
    let g = choose|g: usize| s.queue.contains((t, g));
    assert(s.queue.contains((t, g)));
    assert(queue::is_earliest(s.queue, u));
    let h = choose|h: usize| s.queue.contains((u, h));
    assert(s.queue.contains((u, h)));
}

proof fn fanout_feeds(
    netlist: Netlist,
    gates: Seq<GateView>,
    wires: Seq<Wire>,
    i: int,
    list: Seq<usize>,
)
    requires
        netlist.is_wired(gates, wires),
        0 <= i < gates.len(),
        forall|x: usize| #[trigger]
            list.contains(x) ==> exists|p: int, b: int, k: int|
                0 <= p < netlist.fanout@[i]@.len() && 0 <= b < netlist.fanout@[i]@[p]@.len() && 0
                    <= k < netlist.fanout@[i]@[p]@[b]@.len() && (
                #[trigger] netlist.fanout@[i]@[p]@[b]@[k]).0 == x,
        forall|p: int, b: int, k: int|
            0 <= p < netlist.fanout@[i]@.len() && 0 <= b < netlist.fanout@[i]@[p]@.len() && 0 <= k
                < netlist.fanout@[i]@[p]@[b]@.len() ==> list.contains(
                (#[trigger] netlist.fanout@[i]@[p]@[b]@[k]).0,
            ),
    ensures
        forall|d: usize| #[trigger] list.contains(d) <==> priming::feeds(wires, i, d as int),
        forall|d: usize| #[trigger] list.contains(d) ==> d < gates.len(),
{
    let t = netlist.fanout@;
    assert(t[i]@.len() == gates[i].output_count());
    assert(i < netlist.gates.len());
    assert forall|d: usize| #[trigger] list.contains(d) <==> priming::feeds(
        wires,
        i,
        d as int,
    ) by {
        if list.contains(d) {
            let (p, b, k) = choose|p: int, b: int, k: int|
                0 <= p < t[i]@.len() && 0 <= b < t[i]@[p]@.len() && 0 <= k < t[i]@[p]@[b]@.len() && (
                #[trigger] t[i]@[p]@[b]@[k]).0 == d;
            let src: BitRef = (i as usize, p as usize, b as u8);
            let dst = t[i]@[p]@[b]@[k];
            assert(t[i]@[p]@.len() == gates[i].output_width(p));
            assert(t[i]@[p]@[b]@ == netlist::consumers(wires, src));
            assert(netlist::consumers(wires, src).contains(dst));
            netlist::consumers_are_wired(wires, src, dst);
            let w = choose|w: int| 0 <= w < wires.len() && wires[w] == (src, dst);
            assert(wires[w].0.0 == i && wires[w].1.0 == d);
        }
        if priming::feeds(wires, i, d as int) {
            let w = choose|w: int|
                0 <= w < wires.len() && (#[trigger] wires[w]).0.0 == i && wires[w].1.0 == d as int;
            let (src, dst) = wires[w];
            assert(wires.contains((src, dst)));
            netlist::consumers_are_wired(wires, src, dst);
            assert(netlist::is_source(gates, wires[w].0));
            let p = src.1 as int;
            let b = src.2 as int;
            assert(t[i]@[p]@.len() == gates[i].output_width(p));
            assert(t[i]@[p]@[b]@ == netlist::consumers(wires, src));
            let k = choose|k: int| 0 <= k < t[i]@[p]@[b]@.len() && t[i]@[p]@[b]@[k] == dst;
            assert(list.contains(t[i]@[p]@[b]@[k].0));
        }
    }
    assert forall|d: usize| #[trigger] list.contains(d) implies d < gates.len() by {
        let w = choose|w: int|
            0 <= w < wires.len() && (#[trigger] wires[w]).0.0 == i && wires[w].1.0 == d as int;
        assert(netlist::is_target(gates, wires[w].1));
    }
}

impl Simulation {
    /// The simulation's parts agree with each other.
    pub closed spec fn wf(&self) -> bool {
        &&& self@.well_formed()
        &&& self.netlist.is_wired(self@.gates, self@.wires)
        &&& self.queue.wf()
        &&& forall|k: int|
            0 <= k < self.clock_gates@.len() ==> (#[trigger] self.clock_gates@[k])
                < self@.gates.len() && self@.gates[self.clock_gates@[k] as int] is Clock
        &&& forall|i: int|
            0 <= i < self@.gates.len() && #[trigger] self@.gates[i] is Clock
                ==> self.clock_gates@.contains(i as usize)
    }

    /// A valid simulation has what holds of every simulation.
    pub proof fn wf_is_well_formed(&self)
        requires
            self.wf(),
        ensures
            self@.well_formed(),
    {
    }

    /// Starts a simulation. Nothing has been computed yet, so every output is undriven; every
    /// gate is scheduled once, after the gates that feed it.
    pub fn new(netlist: Netlist) -> (r: Self)
        requires
            netlist.can_simulate(),
        ensures
            r.wf(),
            netlist.starts_as(r@),
    {
        let ghost gates = netlist::gate_views(netlist.gates@);
        let ghost wires = choose|wires: Seq<Wire>| #[trigger] netlist.is_wired(gates, wires);
        let n: usize = netlist.gates.len();
        let mut outputs: Vec<Vec<Signal>> = Vec::new();
        let mut clock_gates: Vec<usize> = Vec::new();
        for i in 0..n
            invariant
                n == netlist.gates@.len(),
                gates == netlist::gate_views(netlist.gates@),
                forall|i: int|
                    0 <= i < netlist.gates@.len() ==> (#[trigger] netlist.gates@[i])@.runnable(),
                outputs@.len() == i,
                forall|j: int|
                    0 <= j < i ==> plugin_abi::signals((#[trigger] outputs@[j])@) == placeholders(
                        gates,
                    )[j],
                forall|k: int|
                    0 <= k < clock_gates@.len() ==> (#[trigger] clock_gates@[k]) < i
                        && gates[clock_gates@[k] as int] is Clock,
                forall|j: int|
                    0 <= j < i && #[trigger] gates[j] is Clock ==> clock_gates@.contains(
                        j as usize,
                    ),
        {
            assert(netlist.gates@[i as int]@.runnable());
            let count: usize = netlist.gates[i].output_count();
            let mut pins: Vec<Signal> = Vec::new();
            for p in 0..count
                invariant
                    pins@.len() == p,
                    forall|q: int| 0 <= q < p ==> (#[trigger] pins@[q])@ == seq![Bit::Unknown],
            {
                let pin: Signal = vec![Bit::Unknown];
                assert(pin@ =~= seq![Bit::Unknown]);
                pins.push(pin);
            }
            assert(plugin_abi::signals(pins@) =~= placeholders(gates)[i as int]);
            outputs.push(pins);
            let ghost before = clock_gates@;
            if let Gate::Clock { .. } = &netlist.gates[i] {
                clock_gates.push(i);
            }
            proof {
                assert forall|j: int| 0 <= j < i + 1 && #[trigger] gates[j] is Clock implies
                    clock_gates@.contains(j as usize) by {
                    if j < i {
                        let k = choose|k: int| 0 <= k < before.len() && before[k] == j as usize;
                        assert(clock_gates@[k] == j as usize);
                    } else {
                        assert(clock_gates@[before.len() as int] == i);
                    }
                }
            }
        }
        let depth: Vec<u64> = priming_depths(&netlist, Ghost(gates), Ghost(wires));
        let mut queue: EventQueue = EventQueue::new();
        for i in 0..n
            invariant
                n == depth@.len(),
                queue.wf(),
                forall|e: (u64, usize)| #[trigger]
                    queue@.contains(e) <==> e.1 < i && e.0 == depth@[e.1 as int],
        {
            queue.push(depth[i], i);
        }
        let r = Simulation {
            netlist,
            outputs,
            time: 0,
            queue,
            global_ticks: 0,
            clock_gates,
            first: depth,
            wires: Ghost(wires),
        };
        proof {
            let resolved = choose|resolved: Set<int>| #[trigger]
                priming::is_priming(wires, gates.len(), r.first@, resolved);
            assert(priming::is_priming(r@.wires, r@.gates.len(), r@.first, resolved));
            assert(r@.outputs =~= placeholders(gates));
            assert(r@.queue =~= primed(r@.first));
            assert forall|i: int| 0 <= i < gates.len() implies r@.is_queued(i) by {
                assert(r@.queue.contains((r@.first[i], i as usize)));
            }
            assert forall|i: int| 0 <= i < gates.len() implies (#[trigger] r@.gates[i]).runnable() by {
                assert(r.netlist.gates@[i]@.runnable());
            }
        }
        r
    }

    pub fn time(&self) -> (t: Time)
        ensures
            t == self@.time,
    {
        self.time
    }

    pub fn global_ticks(&self) -> (t: u64)
        ensures
            t == self@.ticks,
    {
        self.global_ticks
    }

    /// Advances the shared tick counter by one and brings every clock up to date. The clocks
    /// that changed are scheduled; `step` or `run_to_quiescence` carries the change on.
    pub fn tick(&mut self) -> (t: Time)
        requires
            old(self).wf(),
            old(self)@.ticks < u64::MAX,
        ensures
            final(self).wf(),
            final(self)@ == old(self)@.tick(),
            t == final(self)@.time,
    {
        let ghost s = self@;
        let ghost n = s.tick();
        proof {
            tick_keeps_well_formed(s);
        }
        self.global_ticks = self.global_ticks + 1;
        let t: u64 = self.global_ticks;
        let count: usize = self.clock_gates.len();
        for k in 0..count
            invariant
                s == old(self)@,
                s.well_formed(),
                n == s.tick(),
                t == n.ticks,
                count == self.clock_gates@.len(),
                self.clock_gates == old(self).clock_gates,
                self.outputs == old(self).outputs,
                self.time == s.time,
                self.global_ticks == t,
                self.wires == old(self).wires,
                self.first == old(self).first,
                self.netlist.input_sources == old(self).netlist.input_sources,
                self.netlist.fanout == old(self).netlist.fanout,
                self.queue.wf(),
                self.netlist.gates@.len() == s.gates.len(),
                forall|j: int|
                    0 <= j < self.clock_gates@.len() ==> (#[trigger] self.clock_gates@[j])
                        < s.gates.len() && s.gates[self.clock_gates@[j] as int] is Clock,
                forall|i: int|
                    0 <= i < s.gates.len() ==> (#[trigger] self.netlist.gates@[i])@ == s.gates[i]
                        || self.netlist.gates@[i]@ == n.gates[i],
                forall|j: int|
                    0 <= j < k ==> self.netlist.gates@[(
                    #[trigger] self.clock_gates@[j]) as int]@
                        == n.gates[self.clock_gates@[j] as int],
                forall|e: (u64, usize)| #[trigger]
                    self.queue@.contains(e) <==> s.queue.contains(e) || (e.1 < s.gates.len() && e.0
                        == later(s.time as int, s.first[e.1 as int] as int)
                        && self.netlist.gates@[e.1 as int]@ != s.gates[e.1 as int]),
        {
            let idx: usize = self.clock_gates[k];
            let ghost gates = self.netlist.gates@;
            proof {
                assert(s.gates[idx as int].runnable());
                components::tick_keeps_shape(s.gates[idx as int], t);
                components::memory::tick_is_idempotent(s.gates[idx as int], t);
            }
            let changed: bool = self.netlist.gates[idx].tick(t);
            if changed {
                self.queue.push(self.not_too_early(self.time, idx), idx);
            }
            proof {
                assert forall|i: int| 0 <= i < s.gates.len() implies (
                #[trigger] self.netlist.gates@[i])@ == s.gates[i] || self.netlist.gates@[i]@
                    == n.gates[i] by {
                    if i != idx {
                        assert(self.netlist.gates@[i] == gates[i]);
                    }
                }
                assert forall|j: int| 0 <= j < k + 1 implies self.netlist.gates@[(
                #[trigger] self.clock_gates@[j]) as int]@ == n.gates[self.clock_gates@[j] as int] by {
                    if j < k && self.clock_gates@[j] != idx {
                        assert(self.netlist.gates@[self.clock_gates@[j] as int]
                            == gates[self.clock_gates@[j] as int]);
                    }
                }
            }
        }
        proof {
            assert forall|i: int| 0 <= i < s.gates.len() implies self.netlist.gates@[i]@
                == n.gates[i] by {
                if s.gates[i] is Clock {
                    assert(self.clock_gates@.contains(i as usize));
                    let j = choose|j: int|
                        0 <= j < self.clock_gates@.len() && self.clock_gates@[j] == i as usize;
                    assert(self.netlist.gates@[self.clock_gates@[j] as int]@ == n.gates[i]);
                }
            }
            assert(netlist::gate_views(self.netlist.gates@) =~= n.gates);
            assert(self.queue@ =~= n.queue);
            stays_wired(old(self).netlist, self.netlist, s.gates, s.wires);
            assert forall|i: int| 0 <= i < n.gates.len() && #[trigger] n.gates[i] is Clock implies
                self.clock_gates@.contains(i as usize) by {
                assert(s.gates[i] is Clock);
            }
        }
        self.time
    }

    /// The time for a gate that would be due at a time: not before it is to be evaluated first.
    fn not_too_early(&self, time: u64, gate: usize) -> (t: u64)
        requires
            gate < self.first@.len(),
        ensures
            t == later(time as int, self.first@[gate as int] as int),
    {
        if time >= self.first[gate] {
            time
        } else {
            self.first[gate]
        }
    }

    /// What a point with these drivers reads.
    fn read_point(&self, list: &Vec<BitRef>) -> (b: Bit)
        requires
            self.outputs@.len() == self.netlist.gates@.len(),
            forall|k: int|
                0 <= k < list@.len() ==> (#[trigger] list@[k]).0 < self.outputs@.len() && list@[k].1
                    < self.outputs@[list@[k].0 as int]@.len(),
        ensures
            b == point(self@.gates, self@.outputs, list@),
    {
        let mut strong: Bit = Bit::Unknown;
        let mut pull: Bit = Bit::Unknown;
        for k in 0..list.len()
            invariant
                self.outputs@.len() == self.netlist.gates@.len(),
                forall|k: int|
                    0 <= k < list@.len() ==> (#[trigger] list@[k]).0 < self.outputs@.len()
                        && list@[k].1 < self.outputs@[list@[k].0 as int]@.len(),
                strong == driven(self@.gates, self@.outputs, list@, false, k as nat),
                pull == driven(self@.gates, self@.outputs, list@, true, k as nat),
        {
            let (g, p, b): BitRef = list[k];
            assert(list@[k as int] == (g, p, b));
            assert(self@.outputs[g as int][p as int] == self.outputs@[g as int]@[p as int]@);
            assert(self@.gates[g as int] == self.netlist.gates@[g as int]@);
            let v: Bit = components::signal::bit_at(&self.outputs[g][p], b as usize);
            match &self.netlist.gates[g] {
                Gate::PullResistor { .. } => {
                    pull = pull.combine(v);
                },
                _ => {
                    strong = strong.combine(v);
                },
            }
        }
        if strong == Bit::Unknown {
            pull
        } else {
            strong
        }
    }

    /// The wiring tables and the committed outputs fit the gates.
    spec fn is_consistent(&self) -> bool {
        &&& self.netlist.is_wired(self@.gates, self@.wires)
        &&& netlist::wires_ok(self@.gates, self@.wires)
        &&& self@.outputs.len() == self@.gates.len()
        &&& forall|i: int|
            0 <= i < self@.gates.len() ==> (#[trigger] self@.outputs[i]).len()
                == self@.gates[i].output_count()
    }

    /// What a gate's input pins read.
    fn gather_inputs(&self, gate: usize) -> (r: Vec<Signal>)
        requires
            self.is_consistent(),
            gate < self@.gates.len(),
        ensures
            plugin_abi::signals(r@) == self@.inputs(gate as int),
    {
        let ghost s = self@;
        let ghost i = gate as int;
        let ghost want = s.inputs(i);
        let mut r: Vec<Signal> = Vec::new();
        assert(self.netlist.input_sources@[i]@.len() == s.gates[i].input_count());
        let pins: usize = self.netlist.input_sources[gate].len();
        for p in 0..pins
            invariant
                self.is_consistent(),
                s == self@,
                i == gate,
                0 <= i < s.gates.len(),
                want == s.inputs(i),
                pins == s.gates[i].input_count(),
                r@.len() == p,
                forall|q: int| 0 <= q < p ==> (#[trigger] r@[q])@ == want[q],
        {
            assert(self.netlist.input_sources@[i]@.len() == pins);
            assert(self.netlist.input_sources@[i]@[p as int]@.len() == s.gates[i].input_width(
                p as int,
            ));
            let width: usize = self.netlist.input_sources[gate][p].len();
            let mut signal: Signal = Vec::new();
            for b in 0..width
                invariant
                    self.is_consistent(),
                    s == self@,
                    i == gate,
                    0 <= i < s.gates.len(),
                    0 <= p < pins,
                    pins == s.gates[i].input_count(),
                    pins == self.netlist.input_sources@[i]@.len(),
                    width == s.gates[i].input_width(p as int),
                    width == self.netlist.input_sources@[i]@[p as int]@.len(),
                    want == s.inputs(i),
                    signal@.len() == b,
                    forall|c: int| 0 <= c < b ==> (#[trigger] signal@[c]) == want[p as int][c],
            {
                let ghost dst: BitRef = (gate, p, b as u8);
                let ghost list = self.netlist.input_sources@[i]@[p as int]@[b as int]@;
                proof {
                    assert(list == netlist::drivers(s.wires, dst));
                    assert forall|k: int| 0 <= k < list.len() implies (#[trigger] list[k]).0
                        < self.outputs@.len() && list[k].1
                        < self.outputs@[list[k].0 as int]@.len() by {
                        assert(list.contains(list[k]));
                        netlist::drivers_are_wired(s.wires, list[k], dst);
                        let w = choose|w: int|
                            0 <= w < s.wires.len() && s.wires[w] == (list[k], dst);
                        assert(netlist::is_source(s.gates, s.wires[w].0));
                        assert(s.outputs[list[k].0 as int].len()
                            == s.gates[list[k].0 as int].output_count());
                    }
                }
                signal.push(self.read_point(&self.netlist.input_sources[gate][p][b]));
            }
            assert(signal@ =~= want[p as int]);
            r.push(signal);
        }
        assert(plugin_abi::signals(r@) =~= want);
        r
    }

    /// Performs an action on a gate and, where it was not refused, schedules that gate.
    pub fn invoke(&mut self, gate: usize, action: &str, arg: Option<Value>) -> (r: Result<
        (),
        ActionError,
    >)
        requires
            old(self).wf(),
            gate < old(self)@.gates.len(),
            old(self)@.gates[gate as int].can_invoke(action@),
        ensures
            final(self).wf(),
            (final(self)@, plugin_abi::action_outcome(r)) == old(self)@.invoke(
                gate,
                action@,
                plugin_abi::arg_view(arg),
            ),
    {
        let ghost s = self@;
        let ghost n = s.invoke(gate, action@, plugin_abi::arg_view(arg)).0;
        proof {
            invoke_keeps_well_formed(s, gate, action@, plugin_abi::arg_view(arg));
            assert(s.gates[gate as int].runnable());
            components::invoke_keeps_shape(
                s.gates[gate as int],
                action@,
                plugin_abi::arg_view(arg),
            );
        }
        let outcome: Result<(), ActionError> = self.netlist.gates[gate].invoke(action, arg);
        if outcome.is_ok() {
            self.queue.push(self.not_too_early(self.time, gate), gate);
        }
        proof {
            assert(netlist::gate_views(self.netlist.gates@) =~= n.gates);
            assert(self@ =~= n);
            stays_wired(old(self).netlist, self.netlist, s.gates, s.wires);
            assert forall|i: int| 0 <= i < n.gates.len() && #[trigger] n.gates[i] is Clock implies
                self.clock_gates@.contains(i as usize) by {
                assert(components::same_shape(s.gates[i], n.gates[i]));
                assert(s.gates[i] is Clock);
            }
            assert forall|k: int| 0 <= k < self.clock_gates@.len() implies (
            #[trigger] self.clock_gates@[k]) < n.gates.len() && n.gates[self.clock_gates@[k] as int]
                is Clock by {
                let j = self.clock_gates@[k] as int;
                assert(components::same_shape(s.gates[j], n.gates[j]));
            }
        }
        outcome
    }

    /// Reads a value of a gate. Nothing changes.
    pub fn read(&self, gate: usize, name: &str) -> (r: Result<Value, ReadoutError>)
        requires
            self.wf(),
            gate < self@.gates.len(),
        ensures
            plugin_abi::readout_outcome(r) == self@.gates[gate as int].read(name@),
    {
        assert(self@.gates[gate as int].runnable());
        self.netlist.gates[gate].read(name)
    }

    /// A gate can react to a change at a time before the time runs out.
    fn can_react(&self, time: u64, gate: usize) -> (r: bool)
        requires
            gate < self.netlist.gates@.len(),
        ensures
            r == (time + reaction(self.netlist.gates@[gate as int]@) <= u64::MAX),
    {
        let delay: u64 = self.netlist.gates[gate].delay();
        let wait: u64 = if delay == 0 {
            1
        } else {
            delay
        };
        wait <= u64::MAX - time
    }

    /// All gates that read a gate can react to a change of it at a time.
    fn readers_can_react(&self, time: u64, gate: usize) -> (r: bool)
        requires
            self.wf(),
            gate < self@.gates.len(),
        ensures
            r == (forall|g: int| #[trigger]
                priming::feeds(self@.wires, gate as int, g) ==> time + reaction(self@.gates[g])
                    <= u64::MAX),
    {
        let ghost s = self@;
        assert(self.netlist.fanout@[gate as int]@.len() == s.gates[gate as int].output_count());
        let readers: Vec<usize> = gate_list(&self.netlist.fanout[gate]);
        proof {
            fanout_feeds(self.netlist, s.gates, s.wires, gate as int, readers@);
            assert forall|g: int| #[trigger] priming::feeds(s.wires, gate as int, g) implies 0 <= g
                < s.gates.len() && readers@.contains(g as usize) by {
                let w = choose|w: int|
                    0 <= w < s.wires.len() && (#[trigger] s.wires[w]).0.0 == gate as int
                        && s.wires[w].1.0 == g;
                assert(netlist::is_target(s.gates, s.wires[w].1));
                assert(priming::feeds(s.wires, gate as int, (g as usize) as int));
            }
        }
        for k in 0..readers.len()
            invariant
                s == self@,
                self.netlist.gates@.len() == s.gates.len(),
                forall|d: usize| #[trigger]
                    readers@.contains(d) <==> priming::feeds(s.wires, gate as int, d as int),
                forall|d: usize| #[trigger] readers@.contains(d) ==> d < s.gates.len(),
                forall|j: int|
                    0 <= j < k ==> time + reaction(s.gates[(#[trigger] readers@[j]) as int])
                        <= u64::MAX,
        {
            let d: usize = readers[k];
            assert(readers@.contains(d));
            assert(s.gates[d as int] == self.netlist.gates@[d as int]@);
            if !self.can_react(time, d) {
                assert(priming::feeds(s.wires, gate as int, d as int));
                return false;
            }
        }
        proof {
            assert forall|g: int| #[trigger] priming::feeds(s.wires, gate as int, g) implies time
                + reaction(s.gates[g]) <= u64::MAX by {
                assert(readers@.contains(g as usize));
                let j = choose|j: int| 0 <= j < readers@.len() && readers@[j] == g as usize;
                assert(readers@[j] == g as usize);
            }
        }
        true
    }

    /// Whatever reads the gates of the next batch, if there is one, can react to it before the
    /// time runs out.
    pub fn has_headroom(&self) -> (r: bool)
        requires
            self.wf(),
        ensures
            r == self@.has_headroom(),
            r ==> self@.can_step(),
    {
        let ghost s = self@;
        let t: u64 = match self.queue.next_time() {
            None => {
                assert forall|t: u64| #[trigger] queue::is_earliest(
                    s.queue,
                    t,
                ) implies s.leaves_room(t) by {
                    let g = choose|g: usize| s.queue.contains((t, g));
                    assert(s.queue.contains((t, g)));
                }
                return true;
            },
            Some(t) => t,
        };
        proof {
            assert forall|u: u64| queue::is_earliest(s.queue, u) implies u == t by {
                earliest_is_next(s, t);
                earliest_is_next(s, u);
            }
        }
        if t <= u64::MAX - MAX_DELAY {
            proof {
                assert forall|i: int, g: int|
                    0 <= i < s.gates.len() && s.queue.contains((t, i as usize))
                        && #[trigger] priming::feeds(s.wires, i, g) implies t + reaction(
                    s.gates[g],
                ) <= u64::MAX by {
                    reaction_bound(s.gates[g]);
                }
            }
            return true;
        }
        let n: usize = self.netlist.gates.len();
        for i in 0..n
            invariant
                self.wf(),
                s == self@,
                n == s.gates.len(),
                queue::is_earliest(s.queue, t),
                forall|j: int, g: int|
                    0 <= j < i && s.queue.contains((t, j as usize)) && #[trigger] priming::feeds(
                        s.wires,
                        j,
                        g,
                    ) ==> t + reaction(s.gates[g]) <= u64::MAX,
        {
            if self.queue.contains(t, i) {
                if !self.readers_can_react(t, i) {
                    let ghost g = choose|g: int| #[trigger]
                        priming::feeds(s.wires, i as int, g) && t + reaction(s.gates[g])
                            > u64::MAX;
                    assert(priming::feeds(s.wires, i as int, g));
                    assert(!s.leaves_room(t));
                    return false;
                }
            }
        }
        assert(s.leaves_room(t));
        true
    }

    /// Schedules a gate to react to a change.
    fn schedule(&mut self, gate: usize)
        requires
            gate < old(self).netlist.gates@.len(),
            gate < old(self).first@.len(),
            old(self).queue.wf(),
            old(self).time + reaction(old(self).netlist.gates@[gate as int]@) <= u64::MAX,
        ensures
            final(self).queue.wf(),
            final(self).queue@ == old(self).queue@.insert(
                (
                    later(
                        old(self).time + reaction(old(self).netlist.gates@[gate as int]@),
                        old(self).first@[gate as int] as int,
                    ) as u64,
                    gate,
                ),
            ),
            final(self).netlist == old(self).netlist,
            final(self).outputs == old(self).outputs,
            final(self).time == old(self).time,
            final(self).global_ticks == old(self).global_ticks,
            final(self).clock_gates == old(self).clock_gates,
            final(self).first == old(self).first,
            final(self).wires == old(self).wires,
    {
        let delay: u64 = self.netlist.gates[gate].delay();
        let wait: u64 = if delay == 0 {
            1
        } else {
            delay
        };
        let due: u64 = self.time + wait;
        self.queue.push(self.not_too_early(due, gate), gate);
    }

    /// Gathers the inputs of the marked gates.
    fn gather_batch(&self, marks: &Vec<bool>) -> (r: Vec<Option<Vec<Signal>>>)
        requires
            self.is_consistent(),
            marks@.len() == self@.gates.len(),
        ensures
            r@.len() == marks@.len(),
            forall|i: int|
                0 <= i < marks@.len() ==> match #[trigger] r@[i] {
                    Some(ins) => marks@[i] && plugin_abi::signals(ins@) == self@.inputs(i),
                    None => !marks@[i],
                },
    {
        let mut r: Vec<Option<Vec<Signal>>> = Vec::new();
        for i in 0..marks.len()
            invariant
                self.is_consistent(),
                marks@.len() == self@.gates.len(),
                r@.len() == i,
                forall|j: int|
                    0 <= j < i ==> match #[trigger] r@[j] {
                        Some(ins) => marks@[j] && plugin_abi::signals(ins@) == self@.inputs(j),
                        None => !marks@[j],
                    },
        {
            if marks[i] {
                r.push(Some(self.gather_inputs(i)));
            } else {
                r.push(None);
            }
        }
        r
    }

    /// Commits the results of a batch, from the last gate to the first, and schedules the gates
    /// that read what changed.
    fn commit(&mut self, results: Vec<Option<Vec<Signal>>>, Ghost(s): Ghost<SimView>)
        requires
            s.well_formed(),
            old(self).queue.wf(),
            s.reactions_fit(old(self).time),
            old(self).first@ == s.first,
            old(self).netlist.is_wired(old(self)@.gates, s.wires),
            old(self).outputs@.len() == s.gates.len(),
            old(self)@.outputs == s.outputs,
            same_shapes(s.gates, old(self)@.gates),
            results@.len() == s.gates.len(),
            forall|i: int|
                0 <= i < results@.len() ==> match #[trigger] results@[i] {
                    Some(out) => s.queue.contains((old(self).time, i as usize))
                        && plugin_abi::signals(out@) == s.eval(i).1,
                    None => !s.queue.contains((old(self).time, i as usize)),
                },
        ensures
            final(self).queue.wf(),
            final(self)@.outputs == s.outputs_after(old(self).time),
            forall|e: (u64, usize)| #[trigger]
                final(self).queue@.contains(e) <==> old(self).queue@.contains(e)
                    || s.gives_rise_to(old(self).time, e),
            final(self).netlist == old(self).netlist,
            final(self).time == old(self).time,
            final(self).global_ticks == old(self).global_ticks,
            final(self).clock_gates == old(self).clock_gates,
            final(self).first == old(self).first,
            final(self).wires == old(self).wires,
    {
        let ghost t = self.time;
        let ghost gates = self@.gates;
        let ghost queue = self.queue@;
        let ghost all = results@;
        let mut results: Vec<Option<Vec<Signal>>> = results;
        let mut i: usize = results.len();
        while i > 0
            invariant
                s.well_formed(),
                self.queue.wf(),
                t == self.time,
                s.reactions_fit(t),
                self.first@ == s.first,
                self.first == old(self).first,
                gates == self@.gates,
                self.netlist.is_wired(gates, s.wires),
                self.netlist == old(self).netlist,
                self.time == old(self).time,
                self.global_ticks == old(self).global_ticks,
                self.clock_gates == old(self).clock_gates,
                self.wires == old(self).wires,
                same_shapes(s.gates, gates),
                all.len() == s.gates.len(),
                i == results@.len(),
                i <= all.len(),
                results@ == all.take(i as int),
                forall|i: int|
                    0 <= i < all.len() ==> match #[trigger] all[i] {
                        Some(out) => s.queue.contains((t, i as usize)) && plugin_abi::signals(
                            out@,
                        ) == s.eval(i).1,
                        None => !s.queue.contains((t, i as usize)),
                    },
                self.outputs@.len() == s.gates.len(),
                forall|j: int|
                    0 <= j < s.gates.len() ==> plugin_abi::signals((#[trigger] self.outputs@[j])@)
                        == if j < i {
                        s.outputs[j]
                    } else {
                        s.outputs_after(t)[j]
                    },
                forall|e: (u64, usize)| #[trigger]
                    self.queue@.contains(e) <==> queue.contains(e) || (exists|j: int|
                        i <= j < s.gates.len() && #[trigger] s.changes(t, j) && priming::feeds(
                            s.wires,
                            j,
                            e.1 as int,
                        ) && e.0 == s.reacts_at(t, e.1 as int)),
            decreases i,
        {
            let ghost before = *self;
            i = i - 1;
            let result: Option<Vec<Signal>> = results.pop().unwrap();
            assert(result == all[i as int]);
            assert(results@ =~= all.take(i as int));
            assert(plugin_abi::signals(self.outputs@[i as int]@) == s.outputs[i as int]);
            match result {
                Some(out) => {
                    if !same_signals(&out, &self.outputs[i]) {
                        assert(s.changes(t, i as int));
                        self.outputs[i] = out;
                        let targets: Vec<usize> = gate_list(&self.netlist.fanout[i]);
                        proof {
                            fanout_feeds(self.netlist, gates, s.wires, i as int, targets@);
                            assert forall|d: usize| #[trigger] targets@.contains(d) implies t
                                + reaction(s.gates[d as int]) <= u64::MAX by {
                                assert(priming::feeds(s.wires, i as int, d as int));
                            }
                        }
                        let ghost q = self.queue@;
                        let ghost outputs = self.outputs;
                        let count: usize = targets.len();
                        for k in 0..count
                            invariant
                                count == targets@.len(),
                                self.queue.wf(),
                                t == self.time,
                                self.first@ == s.first,
                                self.first == old(self).first,
                                s.first.len() == gates.len(),
                                gates == self@.gates,
                                forall|d: usize| #[trigger]
                                    targets@.contains(d) ==> t + reaction(s.gates[d as int])
                                        <= u64::MAX,
                                same_shapes(s.gates, gates),
                                forall|d: usize| #[trigger]
                                    targets@.contains(d) ==> d < gates.len(),
                                self.netlist == old(self).netlist,
                                self.time == old(self).time,
                                self.global_ticks == old(self).global_ticks,
                                self.clock_gates == old(self).clock_gates,
                                self.wires == old(self).wires,
                                self.outputs == outputs,
                                forall|e: (u64, usize)| #[trigger]
                                    self.queue@.contains(e) <==> q.contains(e) || (
                                    targets@.take(k as int).contains(e.1) && e.0 == s.reacts_at(
                                        t,
                                        e.1 as int,
                                    )),
                        {
                            let ghost sofar = self.queue@;
                            let d: usize = targets[k];
                            proof {
                                assert(targets@.contains(d));
                                assert(components::same_shape(s.gates[d as int], gates[d as int]));
                            }
                            self.schedule(d);
                            proof {
                                let a = targets@.take(k as int);
                                let b = targets@.take(k + 1);
                                assert(b =~= a.push(d));
                                assert forall|x: usize| #[trigger] b.contains(x) <==> a.contains(x)
                                    || x == d by {
                                    if a.contains(x) {
                                        let j = choose|j: int| 0 <= j < a.len() && a[j] == x;
                                        assert(b[j] == x);
                                    }
                                    assert(b[k as int] == d);
                                    if b.contains(x) {
                                        let j = choose|j: int| 0 <= j < b.len() && b[j] == x;
                                        if j < k {
                                            assert(a[j] == x);
                                        }
                                    }
                                }
                            }
                        }
                        assert(targets@.take(count as int) =~= targets@);
                        proof {
                            assert forall|e: (u64, usize)| #[trigger] self.queue@.contains(e)
                                <==> queue.contains(e) || (exists|j: int|
                                i <= j < s.gates.len() && #[trigger] s.changes(t, j)
                                    && priming::feeds(s.wires, j, e.1 as int) && e.0 == s.reacts_at(
                                    t,
                                    e.1 as int,
                                )) by {
                                if targets@.contains(e.1) && e.0 == s.reacts_at(t, e.1 as int) {
                                    assert(s.changes(t, i as int) && priming::feeds(
                                        s.wires,
                                        i as int,
                                        e.1 as int,
                                    ));
                                }
                                if exists|j: int|
                                    i <= j < s.gates.len() && #[trigger] s.changes(t, j)
                                        && priming::feeds(s.wires, j, e.1 as int) && e.0
                                        == s.reacts_at(t, e.1 as int) {
                                    let j = choose|j: int|
                                        i <= j < s.gates.len() && #[trigger] s.changes(t, j)
                                            && priming::feeds(s.wires, j, e.1 as int) && e.0
                                            == s.reacts_at(t, e.1 as int);
                                    if j == i {
                                        assert(targets@.contains(e.1));
                                    }
                                }
                            }
                        }
                    } else {
                        assert(!s.changes(t, i as int));
                    }
                },
                None => {
                    assert(!s.changes(t, i as int));
                },
            }
        }
        proof {
            assert(self@.outputs =~= s.outputs_after(t));
        }
    }

    /// Takes the events at the earliest time, evaluates their gates as one batch, and commits
    /// what changed. Says whether there was anything to do.
    pub fn step(&mut self) -> (r: bool)
        requires
            old(self).wf(),
            old(self)@.can_step(),
        ensures
            final(self).wf(),
            (final(self)@, r) == old(self)@.step(),
    {
        let ghost s = self@;
        let time: u64 = match self.queue.next_time() {
            None => {
                return false;
            },
            Some(time) => time,
        };
        proof {
            earliest_is_next(s, time);
            assert(s.reactions_fit(time));
            step_keeps_well_formed(s, time);
        }
        let n: usize = self.netlist.gates.len();
        let ghost before = *self;
        let marks: Vec<bool> = self.queue.take_batch(time, n);
        let gathered: Vec<Option<Vec<Signal>>> = self.gather_batch(&marks);
        proof {
            assert forall|i: int| 0 <= i < s.gates.len() implies #[trigger] self@.inputs(i)
                == s.inputs(i) by {
                inputs_unchanged(s, self@, i);
            }
            assert forall|i: int| 0 <= i < gathered@.len() implies (#[trigger] gathered@[i] matches Some(
                ins,
            ) ==> self.netlist.gates@[i]@.valid() && self.netlist.gates@[i]@.accepts(
                plugin_abi::signals(ins@),
            )) by {
                if let Some(ins) = gathered@[i] {
                    assert(s.gates[i].runnable());
                    components::runnable_accepts(s.gates[i], s.inputs(i));
                }
            }
        }
        self.time = time;
        let results: Vec<Option<Vec<Signal>>> = eval_batch(&mut self.netlist.gates, &gathered);
        proof {
            let after = s.gates_after(time);
            assert forall|i: int| 0 <= i < s.gates.len() implies self.netlist.gates@[i]@
                == after[i] by {
                assert(slot_result(
                    before.netlist.gates@[i],
                    gathered@[i],
                    self.netlist.gates@[i],
                    results@[i],
                ));
                assert(marks@[(i as usize) as int] == s.queue.contains((time, i as usize)));
            }
            assert(netlist::gate_views(self.netlist.gates@) =~= after);
            stays_wired(before.netlist, self.netlist, s.gates, s.wires);
            assert forall|i: int| 0 <= i < results@.len() implies match #[trigger] results@[i] {
                Some(out) => s.queue.contains((time, i as usize)) && plugin_abi::signals(out@)
                    == s.eval(i).1,
                None => !s.queue.contains((time, i as usize)),
            } by {
                assert(slot_result(
                    before.netlist.gates@[i],
                    gathered@[i],
                    self.netlist.gates@[i],
                    results@[i],
                ));
                assert(marks@[(i as usize) as int] == s.queue.contains((time, i as usize)));
            }
        }
        self.commit(results, Ghost(s));
        proof {
            let after = s.stepped(time);
            assert(self@.queue =~= after.queue);
            assert(self@ =~= after);
            assert forall|i: int|
                0 <= i < after.gates.len() && #[trigger] after.gates[i] is Clock implies self.clock_gates@.contains(
                i as usize) by {
                assert(components::same_shape(s.gates[i], after.gates[i]));
                assert(s.gates[i] is Clock);
            }
            assert forall|k: int| 0 <= k < self.clock_gates@.len() implies (
            #[trigger] self.clock_gates@[k]) < after.gates.len()
                && after.gates[self.clock_gates@[k] as int] is Clock by {
                let j = self.clock_gates@[k] as int;
                assert(components::same_shape(s.gates[j], after.gates[j]));
            }
        }
        true
    }

    /// Steps until nothing is pending, and returns the time. Feedback that never settles is
    /// followed until the time itself runs out.
    pub fn run_to_quiescence(&mut self) -> (t: Time)
        requires
            old(self).wf(),
        ensures
            final(self).wf(),
            runs_to(old(self)@, final(self)@),
            final(self)@ == old(self)@.quiesced(),
            t == final(self)@.time,
    {
        let ghost s = self@;
        let ghost mut n: nat = 0;
        loop
            invariant
                self.wf(),
                s == old(self)@,
                self@ == s.steps(n),
                forall|k: nat|
                    k < n ==> !(#[trigger] s.steps(k)).is_settled() && s.steps(k).has_headroom(),
            ensures
                self.wf(),
                self@ == s.steps(n),
                forall|k: nat|
                    k < n ==> !(#[trigger] s.steps(k)).is_settled() && s.steps(k).has_headroom(),
                self@.is_settled() || !self@.has_headroom(),
            decreases room(self@),
        {
            match self.queue.next_time() {
                None => {
                    break ;
                },
                Some(t) => {
                    if !self.has_headroom() {
                        break ;
                    }
                    let ghost before = self@;
                    proof {
                        earliest_is_next(before, t);
                        assert forall|u: u64| queue::is_earliest(before.queue, u) implies u == t by {
                            earliest_is_next(before, u);
                        }
                        step_moves_on(before, t);
                    }
                    self.step();
                    proof {
                        n = n + 1;
                        assert(s.steps(n) == s.steps((n - 1) as nat).step().0);
                        assert forall|u: u64| queue::is_earliest(self@.queue, u) implies u > t by {
                            let g = choose|g: usize| self@.queue.contains((u, g));
                            assert(self@.queue.contains((u, g)));
                        }
                        if exists|u: u64| queue::is_earliest(self@.queue, u) {
                            assert(queue::is_earliest(self@.queue, self@.next_time()));
                        }
                    }
                },
            }
        }
        proof {
            assert(ran(s, self@, n));
            assert(runs_to(s, self@));
            let after = s.quiesced();
            assert(runs_to(s, after));
            let m = choose|m: nat| #[trigger] ran(s, after, m);
            running_is_deterministic(s, self@, n, after, m);
        }
        self.time
    }

    /// The committed value of an output pin.
    pub fn output_of(&self, pin: PinRef) -> (r: Signal)
        requires
            self.wf(),
            pin.0 < self@.gates.len(),
            pin.1 < self@.gates[pin.0 as int].output_count(),
        ensures
            r@ == self@.outputs[pin.0 as int][pin.1 as int],
    {
        assert(self@.outputs[pin.0 as int].len() == self@.gates[pin.0 as int].output_count());
        self.outputs[pin.0][pin.1].clone()
    }
}

/// Some driver of the kind puts this level on the point.
pub open spec fn has_driver(
    gates: Seq<GateView>,
    outputs: Seq<Seq<Seq<Bit>>>,
    list: Seq<BitRef>,
    pulls: bool,
    level: Bit,
) -> bool {
    exists|r: BitRef| #[trigger] list.contains(r) && drives(gates, outputs, r, pulls, level)
}

/// The output bit is of the kind and has this level.
pub open spec fn drives(
    gates: Seq<GateView>,
    outputs: Seq<Seq<Seq<Bit>>>,
    r: BitRef,
    pulls: bool,
    level: Bit,
) -> bool {
    (gates[r.0 as int] is PullResistor) == pulls && components::signal::bit_of(
        outputs[r.0 as int][r.1 as int],
        r.2 as int,
    ) == level
}

/// What the levels present on a point come to: nothing is nothing, one level is that level, an
/// error or two different levels are an error.
pub open spec fn resolution(one: bool, zero: bool, error: bool) -> Bit {
    if error || (one && zero) {
        Bit::Error
    } else if one {
        Bit::One
    } else if zero {
        Bit::Zero
    } else {
        Bit::Unknown
    }
}

proof fn driven_by_levels(
    gates: Seq<GateView>,
    outputs: Seq<Seq<Seq<Bit>>>,
    list: Seq<BitRef>,
    pulls: bool,
    k: nat,
)
    requires
        k <= list.len(),
    ensures
        driven(gates, outputs, list, pulls, k) == resolution(
            has_driver(gates, outputs, list.take(k as int), pulls, Bit::One),
            has_driver(gates, outputs, list.take(k as int), pulls, Bit::Zero),
            has_driver(gates, outputs, list.take(k as int), pulls, Bit::Error),
        ),
    decreases k,
{
    let now = list.take(k as int);
    if k == 0 {
        assert forall|r: BitRef| !now.contains(r) by {
        }
    } else {
        let before = list.take(k - 1);
        let last = list[k - 1];
        driven_by_levels(gates, outputs, list, pulls, (k - 1) as nat);
        assert(now =~= before.push(last));
        assert(now[k - 1] == last);
        assert(now.contains(last));
        assert forall|level: Bit|
            has_driver(gates, outputs, now, pulls, level) == (has_driver(
                gates,
                outputs,
                before,
                pulls,
                level,
            ) || drives(gates, outputs, last, pulls, level)) by {
            if has_driver(gates, outputs, now, pulls, level) {
                let r = choose|r: BitRef| #[trigger]
                    now.contains(r) && drives(gates, outputs, r, pulls, level);
                let j = choose|j: int| 0 <= j < now.len() && now[j] == r;
                if j < k - 1 {
                    assert(before[j] == r);
                    assert(before.contains(r));
                }
            }
            if has_driver(gates, outputs, before, pulls, level) {
                let r = choose|r: BitRef| #[trigger]
                    before.contains(r) && drives(gates, outputs, r, pulls, level);
                let j = choose|j: int| 0 <= j < before.len() && before[j] == r;
                assert(now[j] == r);
                assert(now.contains(r));
            }
        }
    }
}

/// A point reads what the levels of its real drivers come to; two drivers that disagree, and a
/// driver in error, are an error. Where no real driver drives, the pull resistors decide: a
/// pull resistor only fills in for a floating point, loses against every real driver and hides
/// no conflict.
pub proof fn point_by_levels(
    gates: Seq<GateView>,
    outputs: Seq<Seq<Seq<Bit>>>,
    list: Seq<BitRef>,
)
    ensures
        ({
            let strong = resolution(
                has_driver(gates, outputs, list, false, Bit::One),
                has_driver(gates, outputs, list, false, Bit::Zero),
                has_driver(gates, outputs, list, false, Bit::Error),
            );
            let pull = resolution(
                has_driver(gates, outputs, list, true, Bit::One),
                has_driver(gates, outputs, list, true, Bit::Zero),
                has_driver(gates, outputs, list, true, Bit::Error),
            );
            point(gates, outputs, list) == if strong == Bit::Unknown {
                pull
            } else {
                strong
            }
        }),
{
    assert(list.take(list.len() as int) =~= list);
    driven_by_levels(gates, outputs, list, false, list.len());
    driven_by_levels(gates, outputs, list, true, list.len());
}

/// What a point reads depends neither on the order of its drivers nor on how often one is
/// wired to it.
pub proof fn drivers_in_any_order(
    gates: Seq<GateView>,
    outputs: Seq<Seq<Seq<Bit>>>,
    a: Seq<BitRef>,
    b: Seq<BitRef>,
)
    requires
        forall|r: BitRef| #[trigger] a.contains(r) <==> #[trigger] b.contains(r),
    ensures
        point(gates, outputs, a) == point(gates, outputs, b),
{
    point_by_levels(gates, outputs, a);
    point_by_levels(gates, outputs, b);
    assert forall|pulls: bool, level: Bit|
        has_driver(gates, outputs, a, pulls, level) == has_driver(
            gates,
            outputs,
            b,
            pulls,
            level,
        ) by {
        if has_driver(gates, outputs, a, pulls, level) {
            let r = choose|r: BitRef| #[trigger]
                a.contains(r) && drives(gates, outputs, r, pulls, level);
            assert(b.contains(r));
        }
        if has_driver(gates, outputs, b, pulls, level) {
            let r = choose|r: BitRef| #[trigger]
                b.contains(r) && drives(gates, outputs, r, pulls, level);
            assert(a.contains(r));
        }
    }
}

/// Once nothing is pending, every gate whose outputs follow from its state and inputs alone
/// rests: evaluating it again would change nothing.
pub proof fn settled_is_at_rest(s: SimView, i: int)
    requires
        s.well_formed(),
        s.is_settled(),
        0 <= i < s.gates.len(),
        s.gates[i].settles(),
    ensures
        s.eval(i) == (s.gates[i], s.outputs[i]),
{
    assert(!s.is_queued(i));
    assert(s.at_rest(i));
}

/// Settling what is settled changes nothing.
pub proof fn settling_twice_is_settling_once(s: SimView, after: SimView, n: nat)
    requires
        s.is_settled(),
        ran(s, after, n),
    ensures
        after == s,
        n == 0,
{
    assert(s.steps(0) == s);
}

/// Running until quiescence has one outcome.
pub proof fn running_is_deterministic(s: SimView, a: SimView, m: nat, b: SimView, n: nat)
    requires
        ran(s, a, m),
        ran(s, b, n),
    ensures
        a == b,
        m == n,
{
    if m < n {
        assert(!s.steps(m).is_settled() && s.steps(m).has_headroom());
    }
    if n < m {
        assert(!s.steps(n).is_settled() && s.steps(n).has_headroom());
    }
}

/// What a step does. Where nothing is pending it does nothing and says so. Otherwise it takes
/// the earliest pending time, evaluates every gate that is pending then once, on what was
/// committed before, and touches no other. Whatever reads a changed gate is scheduled, as long
/// as the time does not run out, and all that is pending then is later than the step.
pub proof fn a_step_evaluates_the_earliest(s: SimView)
    requires
        s.well_formed(),
    ensures
        s.step().1 <==> !s.is_settled(),
        s.is_settled() ==> s.step().0 == s,
        !s.is_settled() ==> ({
            let t = s.next_time();
            let after = s.step().0;
            &&& queue::is_earliest(s.queue, t)
            &&& after.time == t && t >= s.time
            &&& forall|i: int|
                0 <= i < s.gates.len() ==> (#[trigger] after.gates[i], after.outputs[i]) == (
                if s.queue.contains((t, i as usize)) {
                    s.eval(i)
                } else {
                    (s.gates[i], s.outputs[i])
                })
            &&& forall|e: (u64, usize)| #[trigger] after.queue.contains(e) ==> e.0 > t
            &&& forall|i: int, g: usize|
                0 <= i < s.gates.len() && #[trigger] s.changes(t, i) && #[trigger] priming::feeds(
                    s.wires,
                    i,
                    g as int,
                ) && s.reacts_at(t, g as int) <= u64::MAX ==> after.queue.contains(
                    (s.reacts_at(t, g as int) as u64, g),
                )
        }),
{
    if !s.is_settled() {
        let t = s.next_time();
        next_is_earliest(s);
        step_moves_on(s, t);
        time_never_goes_back(s, t);
        let after = s.step().0;
        assert forall|i: int, g: usize|
            0 <= i < s.gates.len() && #[trigger] s.changes(t, i) && #[trigger] priming::feeds(
                s.wires,
                i,
                g as int,
            ) && s.reacts_at(t, g as int) <= u64::MAX implies after.queue.contains(
            (s.reacts_at(t, g as int) as u64, g),
        ) by {
            reaction_bound(s.gates[g as int]);
            assert(s.gives_rise_to(t, (s.reacts_at(t, g as int) as u64, g)));
        }
    }
}

proof fn steps_keep_well_formed(s: SimView, n: nat)
    requires
        s.well_formed(),
        forall|k: nat|
            k < n ==> !(#[trigger] s.steps(k)).is_settled() && s.steps(k).has_headroom(),
    ensures
        s.steps(n).well_formed(),
        s.steps(n).time >= s.time,
    decreases n,
{
    if n > 0 {
        let before = s.steps((n - 1) as nat);
        steps_keep_well_formed(s, (n - 1) as nat);
        next_is_earliest(before);
        assert(before.has_headroom());
        step_keeps_well_formed(before, before.next_time());
        time_never_goes_back(before, before.next_time());
    }
}

proof fn first_step_first(s: SimView, k: nat)
    ensures
        s.steps(k + 1) == s.step().0.steps(k),
    decreases k,
{
    if k > 0 {
        first_step_first(s, (k - 1) as nat);
    } else {
        assert(s.steps(0) == s);
    }
}

proof fn some_steps_suffice(s: SimView) -> (n: nat)
    requires
        s.well_formed(),
    ensures
        ran(s, s.steps(n), n),
    decreases room(s),
{
    if s.is_settled() || !s.has_headroom() {
        0
    } else {
        let t = s.next_time();
        let next = s.step().0;
        next_is_earliest(s);
        step_keeps_well_formed(s, t);
        step_moves_on(s, t);
        if exists|u: u64| queue::is_earliest(next.queue, u) {
            let u = next.next_time();
            assert(queue::is_earliest(next.queue, u));
            let g = choose|g: usize| next.queue.contains((u, g));
            assert(next.queue.contains((u, g)));
        }
        let m = some_steps_suffice(next);
        first_step_first(s, m);
        assert forall|k: nat| k < m + 1 implies !(#[trigger] s.steps(k)).is_settled() && s.steps(
            k,
        ).has_headroom() by {
            if k > 0 {
                first_step_first(s, (k - 1) as nat);
                assert(s.steps(k) == next.steps((k - 1) as nat));
            } else {
                assert(s.steps(0) == s);
            }
        }
        m + 1
    }
}

/// What running until quiescence comes to. It ends where nothing is pending, unless the time
/// runs out. Where nothing is pending, a step would do nothing, running again changes nothing,
/// and the committed outputs of every gate whose outputs follow from its state and inputs are
/// those of an evaluation on what its inputs read.
pub proof fn running_settles(s: SimView)
    requires
        s.well_formed(),
    ensures
        runs_to(s, s.quiesced()),
        ({
            let after = s.quiesced();
            &&& after.well_formed()
            &&& after.time >= s.time
            &&& after.has_headroom() ==> after.is_settled()
            &&& after.is_settled() ==> after.step() == (after, false) && after.quiesced() == after
                && forall|i: int|
                0 <= i < after.gates.len() && (#[trigger] after.gates[i]).settles() ==> after.eval(
                    i,
                ) == (after.gates[i], after.outputs[i])
        }),
{
    let k = some_steps_suffice(s);
    assert(runs_to(s, s.steps(k)));
    let after = s.quiesced();
    let n = choose|n: nat| #[trigger] ran(s, after, n);
    steps_keep_well_formed(s, n);
    if after.is_settled() {
        assert forall|i: int|
            0 <= i < after.gates.len() && (#[trigger] after.gates[i]).settles() implies after.eval(
            i,
        ) == (after.gates[i], after.outputs[i]) by {
            settled_is_at_rest(after, i);
        }
        assert(after.steps(0) == after);
        assert(ran(after, after, 0));
        assert(runs_to(after, after));
        let m = choose|m: nat| #[trigger] ran(after, after.quiesced(), m);
        settling_twice_is_settling_once(after, after.quiesced(), m);
    }
}

/// A step never takes the time back.
pub proof fn time_never_goes_back(s: SimView, t: u64)
    requires
        s.well_formed(),
        queue::is_earliest(s.queue, t),
    ensures
        s.stepped(t).time >= s.time,
{
    let g = choose|g: usize| s.queue.contains((t, g));
    assert(s.queue.contains((t, g)));
}

/// A refused action changes nothing at all.
pub proof fn refused_actions_change_nothing(
    s: SimView,
    gate: usize,
    name: Seq<char>,
    arg: Option<ValueView>,
)
    requires
        s.invoke(gate, name, arg).1 is Err,
    ensures
        s.invoke(gate, name, arg).0 == s,
{
}

proof fn stepped_tolerates(s: SimView, t: u64, n: nat)
    requires
        s.tolerates(n),
    ensures
        s.stepped(t).tolerates(n),
{
    let after = s.stepped(t);
    assert forall|i: int| 0 <= i < after.gates.len() implies (
    #[trigger] after.gates[i]).tolerates(n) by {
        assert(s.gates[i].tolerates(n));
        components::evaluations_are_tolerated(s.gates[i], n, s.inputs(i));
    }
}

/// Simulating uses up no actions.
pub proof fn steps_tolerate(s: SimView, k: nat, n: nat)
    requires
        s.tolerates(n),
    ensures
        s.steps(k).tolerates(n),
        s.steps(k).gates.len() == s.gates.len(),
    decreases k,
{
    if k > 0 {
        steps_tolerate(s, (k - 1) as nat, n);
        let before = s.steps((k - 1) as nat);
        stepped_tolerates(before, before.next_time(), n);
    }
}

/// Steps neither add nor remove gates, and never rewire them.
pub proof fn steps_keep_the_circuit(s: SimView, k: nat)
    ensures
        s.steps(k).gates.len() == s.gates.len(),
        s.steps(k).wires == s.wires,
    decreases k,
{
    if k > 0 {
        steps_keep_the_circuit(s, (k - 1) as nat);
    }
}

/// What a library of gates that can be simulated is laid out to can be simulated, and when the
/// simulation starts its gates can take as many actions as anyone can count.
pub proof fn elaborated_can_be_simulated(
    lib: Map<Seq<char>, CircuitTemplate>,
    entry: Seq<char>,
    netlist: Netlist,
    e: Elaborated,
)
    requires
        lib.dom().finite(),
        netlist::leaves_satisfy(
            lib,
            |g: GateView| g.runnable() && g.tolerates(u64::MAX as nat),
        ),
        netlist::elaborate(lib, entry, Seq::empty(), 0, true) == Ok::<
            Elaborated,
            NetlistErrorView,
        >(e),
        netlist.is_wired(e.gates, e.wires),
    ensures
        netlist.can_simulate(),
        forall|s: SimView, n: nat|
            #[trigger] netlist.starts_as(s) && n <= u64::MAX ==> #[trigger] s.tolerates(n),
{
    let holds = |g: GateView| g.runnable() && g.tolerates(u64::MAX as nat);
    netlist::elaborated_gates_are_leaves(lib, entry, Seq::empty(), 0, true, holds);
    assert(netlist::elaborate(lib, entry, Seq::empty(), 0, true) matches Ok(x) ==> x == e);
    assert(netlist::elaborate(lib, entry, Seq::empty(), 0, true) is Ok);
    assert(forall|i: int| 0 <= i < e.gates.len() ==> holds(#[trigger] e.gates[i]));
    assert forall|i: int| 0 <= i < netlist.gates@.len() implies holds(
        (#[trigger] netlist.gates@[i])@,
    ) by {
        assert(netlist::gate_views(netlist.gates@).len() == netlist.gates@.len());
        assert(netlist::gate_views(netlist.gates@) == e.gates);
        assert(i < e.gates.len());
        assert(holds(e.gates[i]));
        assert(netlist::gate_views(netlist.gates@)[i] == netlist.gates@[i]@);
    }
    assert forall|s: SimView, n: nat|
        #[trigger] netlist.starts_as(s) && n <= u64::MAX implies #[trigger] s.tolerates(n) by {
        assert forall|i: int| 0 <= i < s.gates.len() implies (
        #[trigger] s.gates[i]).tolerates(n) by {
            assert(s.gates == e.gates);
            assert(holds(e.gates[i]));
        }
    }
}

} // verus!
