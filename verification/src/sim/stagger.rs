//! What the staggered first evaluations are for: a gate reads what the gates that feed it have
//! computed, not what stands there before they have.
use vstd::prelude::*;
use crate::netlist;
use crate::plugin_abi::ValueView;
use crate::sim;
use crate::sim::{priming, queue, SimView};

verus! {

/// Something that is done to a simulation.
pub enum Move {
    Step,
    Tick,
    Invoke { gate: usize, name: Seq<char>, arg: Option<ValueView> },
}

/// The simulation after the first `k` moves.
pub open spec fn moved(s: SimView, moves: Seq<Move>, k: nat) -> SimView
    decreases k,
{
    if k == 0 {
        s
    } else {
        let before = moved(s, moves, (k - 1) as nat);
        match moves[k - 1] {
            Move::Step => before.step().0,
            Move::Tick => before.tick(),
            Move::Invoke { gate, name, arg } => before.invoke(gate, name, arg).0,
        }
    }
}

/// Actions are on gates that exist.
pub open spec fn moves_ok(s: SimView, moves: Seq<Move>) -> bool {
    forall|j: int|
        0 <= j < moves.len() ==> (#[trigger] moves[j] matches Move::Invoke { gate, .. } ==> gate
            < s.gates.len())
}

/// Move `j`, counted from 0, evaluates gate `g`.
pub open spec fn evaluates(s: SimView, moves: Seq<Move>, j: nat, g: int) -> bool {
    let now = moved(s, moves, j);
    moves[j as int] is Step && !now.is_settled() && now.queue.contains(
        (now.next_time(), g as usize),
    )
}

/// One of the first `k` moves evaluates gate `g`.
pub open spec fn evaluated_before(s: SimView, moves: Seq<Move>, k: nat, g: int) -> bool {
    exists|j: nat| j < k && #[trigger] evaluates(s, moves, j, g)
}

proof fn circuit_stays(s: SimView, moves: Seq<Move>, k: nat)
    requires
        k <= moves.len(),
        moves_ok(s, moves),
    ensures
        moved(s, moves, k).wires == s.wires,
        moved(s, moves, k).first == s.first,
        moved(s, moves, k).gates.len() == s.gates.len(),
    decreases k,
{
    if k > 0 {
        circuit_stays(s, moves, (k - 1) as nat);
        assert(moves[k - 1] matches Move::Invoke { gate, .. } ==> gate < s.gates.len());
    }
}

proof fn first_event_pending(s: SimView, moves: Seq<Move>, k: nat, g: int)
    requires
        k <= moves.len(),
        s.queue == sim::primed(s.first),
        s.first.len() <= usize::MAX,
        0 <= g < s.first.len(),
    ensures
        moved(s, moves, k).queue.contains((s.first[g], g as usize)) || evaluated_before(
            s,
            moves,
            k,
            g,
        ),
    decreases k,
{
    if k > 0 {
        let j = (k - 1) as nat;
        let before = moved(s, moves, j);
        first_event_pending(s, moves, j, g);
        if evaluated_before(s, moves, j, g) {
            let i = choose|i: nat| i < j && #[trigger] evaluates(s, moves, i, g);
            assert(evaluates(s, moves, i, g));
        } else if moves[j as int] is Step && !before.is_settled() && before.next_time()
            == s.first[g] {
            assert(evaluates(s, moves, j, g));
        }
    }
}

proof fn events_wait(s: SimView, moves: Seq<Move>, k: nat)
    requires
        k <= moves.len(),
        moves_ok(s, moves),
        s.queue == sim::primed(s.first),
        s.first.len() == s.gates.len(),
        netlist::wires_ok(s.gates, s.wires),
    ensures
        forall|e: (u64, usize)| #[trigger]
            moved(s, moves, k).queue.contains(e) ==> e.1 < s.first.len() && e.0
                >= s.first[e.1 as int],
    decreases k,
{
    if k > 0 {
        let j = (k - 1) as nat;
        let before = moved(s, moves, j);
        events_wait(s, moves, j);
        circuit_stays(s, moves, j);
        assert forall|e: (u64, usize)| #[trigger] moved(s, moves, k).queue.contains(e) implies e.1
            < s.first.len() && e.0 >= s.first[e.1 as int] by {
            if !before.queue.contains(e) && moves[j as int] is Step {
                let t = before.next_time();
                assert(before.gives_rise_to(t, e));
                let i = choose|i: int|
                    0 <= i < before.gates.len() && #[trigger] before.changes(t, i)
                        && priming::feeds(before.wires, i, e.1 as int) && e.0 == before.reacts_at(
                        t,
                        e.1 as int,
                    );
                let w = choose|w: int|
                    0 <= w < s.wires.len() && (#[trigger] s.wires[w]).0.0 == i && s.wires[w].1.0
                        == e.1 as int;
                assert(netlist::is_target(s.gates, s.wires[w].1));
            }
        }
    }
}

/// No gate is evaluated before the gates that feed it, whatever steps, ticks and actions follow
/// the start: when a gate with a place in the order is evaluated, each of those has been
/// evaluated in an earlier step, and its outputs have been computed.
pub proof fn sources_are_evaluated_first(
    s: SimView,
    resolved: Set<int>,
    moves: Seq<Move>,
    k: nat,
    source: int,
    g: int,
)
    requires
        s.well_formed(),
        s.queue == sim::primed(s.first),
        priming::is_priming(s.wires, s.gates.len(), s.first, resolved),
        moves_ok(s, moves),
        k < moves.len(),
        0 <= g < s.gates.len(),
        resolved.contains(g),
        priming::feeds(s.wires, source, g),
        evaluates(s, moves, k, g),
    ensures
        evaluated_before(s, moves, k, source),
{
    let w = choose|w: int|
        0 <= w < s.wires.len() && (#[trigger] s.wires[w]).0.0 == source && s.wires[w].1.0 == g;
    assert(netlist::is_source(s.gates, s.wires[w].0));
    let now = moved(s, moves, k);
    sim::next_is_earliest(now);
    events_wait(s, moves, k);
    first_event_pending(s, moves, k, source);
    assert(priming::in_order(s.wires, s.first, resolved, g));
    assert(now.queue.contains((now.next_time(), g as usize)));
    assert(s.first[source] < s.first[g] <= now.next_time());
    if now.queue.contains((s.first[source], source as usize)) {
        assert(now.next_time() <= s.first[source]);
    }
}

} // verus!
