//! The schedule of the first evaluations.
use vstd::prelude::*;
use crate::components::GateView;
use crate::netlist;
use crate::netlist::{BitRef, Netlist, Wire};

verus! {

/// A wire runs from gate `s` to gate `i`.
pub open spec fn feeds(wires: Seq<Wire>, s: int, i: int) -> bool {
    exists|k: int|
        0 <= k < wires.len() && (#[trigger] wires[k]).0.0 == s && wires[k].1.0 == i
}

/// Gate `i` is scheduled first one tick after the last of the gates that feed it, or at zero
/// where none does.
pub open spec fn in_order(wires: Seq<Wire>, depth: Seq<u64>, resolved: Set<int>, i: int) -> bool {
    &&& forall|s: int| #[trigger]
        feeds(wires, s, i) ==> resolved.contains(s) && depth[s] < depth[i]
    &&& depth[i] == 0 || exists|s: int| #[trigger]
        feeds(wires, s, i) && depth[i] == depth[s] + 1
}

/// Gate `i` has no place in the order because a gate that feeds it has none; it starts at zero.
pub open spec fn out_of_order(
    wires: Seq<Wire>,
    depth: Seq<u64>,
    resolved: Set<int>,
    i: int,
) -> bool {
    depth[i] == 0 && exists|s: int| #[trigger] feeds(wires, s, i) && !resolved.contains(s)
}

/// When each gate is scheduled first. The gates outside `resolved` are those that are on a
/// cycle or behind one.
pub open spec fn is_priming(wires: Seq<Wire>, n: nat, depth: Seq<u64>, resolved: Set<int>) -> bool {
    &&& depth.len() == n
    &&& forall|i: int|
        0 <= i < n && resolved.contains(i) ==> #[trigger] in_order(wires, depth, resolved, i)
    &&& forall|i: int|
        0 <= i < n && !resolved.contains(i) ==> #[trigger] out_of_order(wires, depth, resolved, i)
}

/// The gates mentioned in bit lists by pin and bit.
pub(crate) fn gate_list(lists: &Vec<Vec<Vec<BitRef>>>) -> (r: Vec<usize>)
    ensures
        forall|x: usize| #[trigger]
            r@.contains(x) ==> exists|p: int, b: int, k: int|
                0 <= p < lists@.len() && 0 <= b < lists@[p]@.len() && 0 <= k
                    < lists@[p]@[b]@.len() && (#[trigger] lists@[p]@[b]@[k]).0 == x,
        forall|p: int, b: int, k: int|
            0 <= p < lists@.len() && 0 <= b < lists@[p]@.len() && 0 <= k < lists@[p]@[b]@.len()
                ==> r@.contains((#[trigger] lists@[p]@[b]@[k]).0),
{
    let mut r: Vec<usize> = Vec::new();
    for p in 0..lists.len()
        invariant
            forall|x: usize| #[trigger]
                r@.contains(x) ==> exists|p: int, b: int, k: int|
                    0 <= p < lists@.len() && 0 <= b < lists@[p]@.len() && 0 <= k
                        < lists@[p]@[b]@.len() && (#[trigger] lists@[p]@[b]@[k]).0 == x,
            forall|q: int, b: int, k: int|
                0 <= q < p && 0 <= b < lists@[q]@.len() && 0 <= k < lists@[q]@[b]@.len()
                    ==> r@.contains((#[trigger] lists@[q]@[b]@[k]).0),
    {
        let width: usize = lists[p].len();
        for b in 0..width
            invariant
                p < lists@.len(),
                width == lists@[p as int]@.len(),
                forall|x: usize| #[trigger]
                    r@.contains(x) ==> exists|p: int, b: int, k: int|
                        0 <= p < lists@.len() && 0 <= b < lists@[p]@.len() && 0 <= k
                            < lists@[p]@[b]@.len() && (#[trigger] lists@[p]@[b]@[k]).0 == x,
                forall|q: int, b: int, k: int|
                    0 <= q < p && 0 <= b < lists@[q]@.len() && 0 <= k < lists@[q]@[b]@.len()
                        ==> r@.contains((#[trigger] lists@[q]@[b]@[k]).0),
                forall|c: int, k: int|
                    0 <= c < b && 0 <= k < lists@[p as int]@[c]@.len() ==> r@.contains(
                        (#[trigger] lists@[p as int]@[c]@[k]).0,
                    ),
        {
            let count: usize = lists[p][b].len();
            for k in 0..count
                invariant
                    p < lists@.len(),
                    b < lists@[p as int]@.len(),
                    count == lists@[p as int]@[b as int]@.len(),
                    forall|x: usize| #[trigger]
                        r@.contains(x) ==> exists|p: int, b: int, k: int|
                            0 <= p < lists@.len() && 0 <= b < lists@[p]@.len() && 0 <= k
                                < lists@[p]@[b]@.len() && (#[trigger] lists@[p]@[b]@[k]).0 == x,
                    forall|q: int, b: int, k: int|
                        0 <= q < p && 0 <= b < lists@[q]@.len() && 0 <= k < lists@[q]@[b]@.len()
                            ==> r@.contains((#[trigger] lists@[q]@[b]@[k]).0),
                    forall|c: int, k: int|
                        0 <= c < b && 0 <= k < lists@[p as int]@[c]@.len() ==> r@.contains(
                            (#[trigger] lists@[p as int]@[c]@[k]).0,
                        ),
                    forall|l: int|
                        0 <= l < k ==> r@.contains(
                            (#[trigger] lists@[p as int]@[b as int]@[l]).0,
                        ),
            {
                let ghost before = r@;
                let gate: usize = lists[p][b][k].0;
                r.push(gate);
                proof {
                    assert(lists@[p as int]@[b as int]@[k as int].0 == gate);
                    assert(r@[before.len() as int] == gate);
                    assert forall|x: usize| before.contains(x) implies r@.contains(x) by {
                        let i = choose|i: int| 0 <= i < before.len() && before[i] == x;
                        assert(r@[i] == x);
                    }
                    assert forall|x: usize| #[trigger] r@.contains(x) implies exists|
                        p: int,
                        b: int,
                        k: int,
                    |
                        0 <= p < lists@.len() && 0 <= b < lists@[p]@.len() && 0 <= k
                            < lists@[p]@[b]@.len() && (#[trigger] lists@[p]@[b]@[k]).0 == x by {
                        let i = choose|i: int| 0 <= i < r@.len() && r@[i] == x;
                        if i < before.len() {
                            assert(before[i] == x);
                            assert(before.contains(x));
                        }
                    }
                }
            }
        }
    }
    r
}

/// The gates that feed each gate.
fn direct_sources(netlist: &Netlist, Ghost(gates): Ghost<Seq<GateView>>, Ghost(wires): Ghost<
    Seq<Wire>,
>) -> (r: Vec<Vec<usize>>)
    requires
        netlist.is_wired(gates, wires),
    ensures
        r@.len() == gates.len(),
        forall|i: int, s: usize|
            0 <= i < gates.len() ==> (#[trigger] r@[i]@.contains(s) <==> feeds(wires, s as int, i)),
{
    let mut r: Vec<Vec<usize>> = Vec::new();
    for i in 0..netlist.input_sources.len()
        invariant
            netlist.is_wired(gates, wires),
            r@.len() == i,
            forall|j: int, s: usize|
                0 <= j < i ==> (#[trigger] r@[j]@.contains(s) <==> feeds(wires, s as int, j)),
    {
        let list: Vec<usize> = gate_list(&netlist.input_sources[i]);
        proof {
            sources_feed(*netlist, gates, wires, i as int, list@);
        }
        r.push(list);
    }
    r
}

proof fn sources_feed(
    netlist: Netlist,
    gates: Seq<GateView>,
    wires: Seq<Wire>,
    i: int,
    list: Seq<usize>,
)
    requires
        netlist.is_wired(gates, wires),
        0 <= i < gates.len(),
        forall|x: usize| #[trigger]
            list.contains(x) ==> exists|p: int, b: int, k: int|
                0 <= p < netlist.input_sources@[i]@.len() && 0 <= b
                    < netlist.input_sources@[i]@[p]@.len() && 0 <= k
                    < netlist.input_sources@[i]@[p]@[b]@.len() && (
                #[trigger] netlist.input_sources@[i]@[p]@[b]@[k]).0 == x,
        forall|p: int, b: int, k: int|
            0 <= p < netlist.input_sources@[i]@.len() && 0 <= b
                < netlist.input_sources@[i]@[p]@.len() && 0 <= k
                < netlist.input_sources@[i]@[p]@[b]@.len() ==> list.contains(
                (#[trigger] netlist.input_sources@[i]@[p]@[b]@[k]).0,
            ),
    ensures
        forall|s: usize| #[trigger] list.contains(s) <==> feeds(wires, s as int, i),
{
    let t = netlist.input_sources@;
    assert(t[i]@.len() == gates[i].input_count());
    assert(i < netlist.gates.len());
    assert forall|s: usize| #[trigger] list.contains(s) <==> feeds(wires, s as int, i) by {
        if list.contains(s) {
            let (p, b, k) = choose|p: int, b: int, k: int|
                0 <= p < t[i]@.len() && 0 <= b < t[i]@[p]@.len() && 0 <= k < t[i]@[p]@[b]@.len() && (
                #[trigger] t[i]@[p]@[b]@[k]).0 == s;
            let dst: BitRef = (i as usize, p as usize, b as u8);
            let src = t[i]@[p]@[b]@[k];
            assert(t[i]@[p]@.len() == gates[i].input_width(p));
            assert(t[i]@[p]@[b]@ == netlist::drivers(wires, dst));
            assert(netlist::drivers(wires, dst).contains(src));
            netlist::drivers_are_wired(wires, src, dst);
            let w = choose|w: int| 0 <= w < wires.len() && wires[w] == (src, dst);
            assert(wires[w].0.0 == s && wires[w].1.0 == i);
        }
        if feeds(wires, s as int, i) {
            let w = choose|w: int|
                0 <= w < wires.len() && (#[trigger] wires[w]).0.0 == s as int && wires[w].1.0 == i;
            let (src, dst) = wires[w];
            assert(wires.contains((src, dst)));
            netlist::drivers_are_wired(wires, src, dst);
            assert(netlist::is_target(gates, wires[w].1));
            let p = dst.1 as int;
            let b = dst.2 as int;
            assert(t[i]@[p]@.len() == gates[i].input_width(p));
            assert(t[i]@[p]@[b]@ == netlist::drivers(wires, dst));
            let k = choose|k: int| 0 <= k < t[i]@[p]@[b]@.len() && t[i]@[p]@[b]@[k] == src;
            assert(list.contains(t[i]@[p]@[b]@[k].0));
        }
    }
}

spec fn resolved_set(depth: Seq<Option<u64>>) -> Set<int> {
    Set::new(|i: int| 0 <= i < depth.len() && depth[i] is Some)
}

/// The depths found so far are right.
spec fn partial(wires: Seq<Wire>, depth: Seq<Option<u64>>) -> bool {
    forall|i: int|
        0 <= i < depth.len() && (#[trigger] depth[i]) is Some ==> {
            &&& forall|s: int| #[trigger]
                feeds(wires, s, i) ==> 0 <= s < depth.len() && depth[s] is Some && depth[s]->0
                    < depth[i]->0
            &&& depth[i]->0 == 0 || exists|s: int| #[trigger]
                feeds(wires, s, i) && 0 <= s < depth.len() && depth[s] is Some && depth[i]->0
                    == depth[s]->0 + 1
        }
}

/// Gate `i` is fed by a gate without a depth.
spec fn stuck(wires: Seq<Wire>, depth: Seq<Option<u64>>, i: int) -> bool {
    exists|s: int| #[trigger] feeds(wires, s, i) && 0 <= s < depth.len() && depth[s] is None
}

/// The depth of a gate whose sources all have one, `None` if one of them has none.
fn depth_after(sources: &Vec<usize>, depth: &Vec<Option<u64>>, count: usize) -> (r: Option<u64>)
    requires
        count <= depth@.len(),
        forall|j: int| 0 <= j < sources@.len() ==> (#[trigger] sources@[j]) < depth@.len(),
        forall|j: int|
            0 <= j < depth@.len() ==> ((#[trigger] depth@[j]) matches Some(d) ==> d < count),
    ensures
        match r {
            None => exists|j: int|
                0 <= j < sources@.len() && depth@[(#[trigger] sources@[j]) as int] is None,
            Some(d) => {
                &&& d <= count
                &&& forall|j: int|
                    0 <= j < sources@.len() ==> depth@[(#[trigger] sources@[j]) as int] is Some
                        && depth@[sources@[j] as int]->0 < d
                &&& d == 0 || exists|j: int|
                    0 <= j < sources@.len() && d == depth@[(#[trigger] sources@[j]) as int]->0 + 1
            },
        },
{
    let mut next: u64 = 0;
    for j in 0..sources.len()
        invariant
            count <= depth@.len(),
            forall|j: int| 0 <= j < sources@.len() ==> (#[trigger] sources@[j]) < depth@.len(),
            forall|j: int|
                0 <= j < depth@.len() ==> ((#[trigger] depth@[j]) matches Some(d) ==> d < count),
            next <= count,
            forall|l: int|
                0 <= l < j ==> depth@[(#[trigger] sources@[l]) as int] is Some
                    && depth@[sources@[l] as int]->0 < next,
            next == 0 || exists|l: int|
                0 <= l < j && next == depth@[(#[trigger] sources@[l]) as int]->0 + 1,
    {
        let s: usize = sources[j];
        match depth[s] {
            None => {
                assert(depth@[sources@[j as int] as int] is None);
                return None;
            },
            Some(d) => {
                assert(depth@[s as int] == Some(d));
                assert(count <= usize::MAX);
                if d >= next {
                    next = d + 1;
                    assert(next == depth@[sources@[j as int] as int]->0 + 1);
                }
            },
        }
    }
    Some(next)
}

/// Gives depths to gates whose sources all have one, until no gate gets one any more.
fn relax(n: usize, sources: &Vec<Vec<usize>>, Ghost(wires): Ghost<Seq<Wire>>) -> (depth: Vec<
    Option<u64>,
>)
    requires
        sources@.len() == n,
        forall|i: int, s: int| 0 <= i < n && #[trigger] feeds(wires, s, i) ==> 0 <= s < n,
        forall|i: int, s: usize|
            0 <= i < n ==> (#[trigger] sources@[i]@.contains(s) <==> feeds(wires, s as int, i)),
    ensures
        depth@.len() == n,
        partial(wires, depth@),
        forall|i: int|
            0 <= i < n ==> (#[trigger] depth@[i]) is Some || stuck(wires, depth@, i),
{
    let mut depth: Vec<Option<u64>> = Vec::new();
    for i in 0..n
        invariant
            depth@.len() == i,
            forall|j: int| 0 <= j < i ==> (#[trigger] depth@[j]) is None,
    {
        depth.push(None);
    }
    let mut count: usize = 0;
    let mut progressed: bool = true;
    proof {
        none_resolved(depth@);
    }
    while progressed
        invariant
            sources@.len() == n,
            depth@.len() == n,
            count <= n,
            forall|i: int, s: int| 0 <= i < n && #[trigger] feeds(wires, s, i) ==> 0 <= s < n,
            forall|i: int, s: usize|
                0 <= i < n ==> (#[trigger] sources@[i]@.contains(s) <==> feeds(wires, s as int, i)),
            partial(wires, depth@),
            unresolved(depth@) + count == n,
            forall|j: int| 0 <= j < n ==> ((#[trigger] depth@[j]) matches Some(d) ==> d < count),
            !progressed ==> forall|i: int|
                0 <= i < n ==> (#[trigger] depth@[i]) is Some || stuck(wires, depth@, i),
        decreases
            n - count,
            if progressed {
                1int
            } else {
                0int
            },
    {
        progressed = false;
        let ghost start = count;
        for i in 0..n
            invariant
                    sources@.len() == n,
                depth@.len() == n,
                start <= count <= n,
                forall|i: int, s: int| 0 <= i < n && #[trigger] feeds(wires, s, i) ==> 0 <= s < n,
                forall|i: int, s: usize|
                    0 <= i < n ==> (#[trigger] sources@[i]@.contains(s) <==> feeds(
                        wires,
                        s as int,
                        i,
                    )),
                partial(wires, depth@),
                forall|j: int|
                    0 <= j < n ==> ((#[trigger] depth@[j]) matches Some(d) ==> d < count),
                unresolved(depth@) + count == n,
                progressed ==> start < count,
                !progressed ==> forall|j: int|
                    0 <= j < i ==> (#[trigger] depth@[j]) is Some || stuck(wires, depth@, j),
        {
            if depth[i].is_none() {
                proof {
                    assert forall|j: int| 0 <= j < sources@[i as int]@.len() implies (
                    #[trigger] sources@[i as int]@[j]) < depth@.len() by {
                        assert(sources@[i as int]@.contains(sources@[i as int]@[j]));
                    }
                }
                let found: Option<u64> = depth_after(&sources[i], &depth, count);
                let ghost before = depth@;
                match found {
                    Some(d) => {
                        proof {
                            some_unresolved(before, i as int);
                            resolve_one(before, i as int, d);
                        }
                        depth[i] = Some(d);
                        count = count + 1;
                        progressed = true;
                        proof {
                            partial_grows(
                                wires,
                                before,
                                i as int,
                                d,
                                sources@[i as int]@,
                            );
                        }
                    },
                    None => {
                        proof {
                            let j = choose|j: int|
                                0 <= j < sources@[i as int]@.len() && depth@[(
                                #[trigger] sources@[i as int]@[j]) as int] is None;
                            let s = sources@[i as int]@[j];
                            assert(sources@[i as int]@.contains(s));
                            assert(feeds(wires, s as int, i as int));
                            assert(stuck(wires, depth@, i as int));
                        }
                    },
                }
            }
        }
    }
    depth
}

proof fn relaxed_is_priming(wires: Seq<Wire>, depth: Seq<Option<u64>>, r: Seq<u64>)
    requires
        r.len() == depth.len(),
        forall|j: int|
            0 <= j < r.len() ==> (#[trigger] r[j]) == (match depth[j] {
                Some(d) => d,
                None => 0,
            }),
        partial(wires, depth),
        forall|i: int|
            0 <= i < depth.len() ==> (#[trigger] depth[i]) is Some || stuck(wires, depth, i),
    ensures
        is_priming(wires, depth.len(), r, resolved_set(depth)),
{
    let resolved = resolved_set(depth);
    assert forall|i: int| 0 <= i < depth.len() && resolved.contains(i) implies #[trigger] in_order(
        wires,
        r,
        resolved,
        i,
    ) by {
        assert(depth[i] is Some);
        if r[i] != 0 {
            let s = choose|s: int| #[trigger]
                feeds(wires, s, i) && 0 <= s < depth.len() && depth[s] is Some && depth[i]->0
                    == depth[s]->0 + 1;
            assert(feeds(wires, s, i) && r[i] == r[s] + 1);
        }
    }
    assert forall|i: int|
        0 <= i < depth.len() && !resolved.contains(i) implies #[trigger] out_of_order(
        wires,
        r,
        resolved,
        i,
    ) by {
        assert(depth[i] is None);
        assert(stuck(wires, depth, i));
        let s = choose|s: int| #[trigger]
            feeds(wires, s, i) && 0 <= s < depth.len() && depth[s] is None;
        assert(feeds(wires, s, i) && !resolved.contains(s));
    }
}

/// Each gate's distance from the sources, found by relaxation: a circuit may have cycles, on
/// which no order of the gates exists.
pub(crate) fn priming_depths(netlist: &Netlist, Ghost(gates): Ghost<Seq<GateView>>, Ghost(
    wires,
): Ghost<Seq<Wire>>) -> (r: Vec<u64>)
    requires
        netlist.is_wired(gates, wires),
    ensures
        exists|resolved: Set<int>| is_priming(wires, gates.len(), r@, resolved),
{
    let n: usize = netlist.gates.len();
    let sources: Vec<Vec<usize>> = direct_sources(netlist, Ghost(gates), Ghost(wires));
    proof {
        assert forall|i: int, s: int| 0 <= i < n && #[trigger] feeds(wires, s, i) implies 0 <= s
            < n by {
            let w = choose|w: int|
                0 <= w < wires.len() && (#[trigger] wires[w]).0.0 == s && wires[w].1.0 == i;
            assert(netlist::is_source(gates, wires[w].0));
        }
    }
    let depth: Vec<Option<u64>> = relax(n, &sources, Ghost(wires));
    let mut r: Vec<u64> = Vec::new();
    for i in 0..n
        invariant
            depth@.len() == n,
            r@.len() == i,
            forall|j: int|
                0 <= j < i ==> (#[trigger] r@[j]) == (match depth@[j] {
                    Some(d) => d,
                    None => 0,
                }),
    {
        r.push(
            match depth[i] {
                Some(d) => d,
                None => 0,
            },
        );
    }
    proof {
        relaxed_is_priming(wires, depth@, r@);
    }
    r
}

/// How many gates have no depth.
spec fn unresolved(depth: Seq<Option<u64>>) -> nat
    decreases depth.len(),
{
    if depth.len() == 0 {
        0
    } else {
        unresolved(depth.drop_last()) + (if depth.last() is None {
            1nat
        } else {
            0nat
        })
    }
}

proof fn none_resolved(depth: Seq<Option<u64>>)
    requires
        forall|j: int| 0 <= j < depth.len() ==> (#[trigger] depth[j]) is None,
    ensures
        unresolved(depth) == depth.len(),
    decreases depth.len(),
{
    if depth.len() > 0 {
        assert(depth[depth.len() - 1] is None);
        none_resolved(depth.drop_last());
    }
}

proof fn some_unresolved(depth: Seq<Option<u64>>, i: int)
    requires
        0 <= i < depth.len(),
        depth[i] is None,
    ensures
        unresolved(depth) > 0,
    decreases depth.len(),
{
    if i < depth.len() - 1 {
        some_unresolved(depth.drop_last(), i);
    }
}

proof fn resolve_one(depth: Seq<Option<u64>>, i: int, d: u64)
    requires
        0 <= i < depth.len(),
        depth[i] is None,
    ensures
        unresolved(depth.update(i, Some(d))) + 1 == unresolved(depth),
    decreases depth.len(),
{
    let after = depth.update(i, Some(d));
    if i < depth.len() - 1 {
        resolve_one(depth.drop_last(), i, d);
        assert(after.drop_last() =~= depth.drop_last().update(i, Some(d)));
    } else {
        assert(after.drop_last() =~= depth.drop_last());
    }
}

proof fn partial_grows(
    wires: Seq<Wire>,
    depth: Seq<Option<u64>>,
    i: int,
    d: u64,
    sources: Seq<usize>,
)
    requires
        0 <= i < depth.len(),
        depth[i] is None,
        partial(wires, depth),
        forall|s: int| #[trigger] feeds(wires, s, i) ==> 0 <= s < depth.len(),
        forall|s: usize| #[trigger] sources.contains(s) <==> feeds(wires, s as int, i),
        depth.len() <= usize::MAX,
        forall|j: int|
            0 <= j < sources.len() ==> depth[(#[trigger] sources[j]) as int] is Some
                && depth[sources[j] as int]->0 < d,
        d == 0 || exists|j: int|
            0 <= j < sources.len() && d == depth[(#[trigger] sources[j]) as int]->0 + 1,
    ensures
        partial(wires, depth.update(i, Some(d))),
{
    let after = depth.update(i, Some(d));
    assert forall|k: int| 0 <= k < after.len() && (#[trigger] after[k]) is Some implies {
        &&& forall|s: int| #[trigger]
            feeds(wires, s, k) ==> 0 <= s < after.len() && after[s] is Some && after[s]->0
                < after[k]->0
        &&& after[k]->0 == 0 || exists|s: int| #[trigger]
            feeds(wires, s, k) && 0 <= s < after.len() && after[s] is Some && after[k]->0
                == after[s]->0 + 1
    } by {
        if k == i {
            assert forall|s: int| #[trigger] feeds(wires, s, i) implies 0 <= s < after.len()
                && after[s] is Some && after[s]->0 < d by {
                let u = s as usize;
                assert(sources.contains(u));
                let j = choose|j: int| 0 <= j < sources.len() && sources[j] == u;
                assert(depth[sources[j] as int] is Some);
            }
            if d != 0 {
                let j = choose|j: int|
                    0 <= j < sources.len() && d == depth[(#[trigger] sources[j]) as int]->0 + 1;
                let s = sources[j];
                assert(sources.contains(s));
                assert(feeds(wires, s as int, i));
                assert(after[s as int] == depth[s as int]);
            }
        } else {
            assert(after[k] == depth[k]);
            assert forall|s: int| #[trigger] feeds(wires, s, k) implies 0 <= s < after.len()
                && after[s] is Some && after[s]->0 < after[k]->0 by {
                assert(depth[s] is Some);
            }
            if after[k]->0 != 0 {
                let s = choose|s: int| #[trigger]
                    feeds(wires, s, k) && 0 <= s < depth.len() && depth[s] is Some && depth[k]->0
                        == depth[s]->0 + 1;
                assert(after[s] == depth[s]);
                assert(feeds(wires, s, k));
            }
        }
    }
}

/// A gate with a place in the order is scheduled first strictly after every gate that feeds it
/// is.
pub proof fn primed_after_its_sources(
    wires: Seq<Wire>,
    n: nat,
    depth: Seq<u64>,
    resolved: Set<int>,
    s: int,
    i: int,
)
    requires
        is_priming(wires, n, depth, resolved),
        0 <= i < n,
        resolved.contains(i),
        feeds(wires, s, i),
    ensures
        resolved.contains(s),
        depth[s] < depth[i],
{
    assert(in_order(wires, depth, resolved, i));
}

proof fn same_depth(
    wires: Seq<Wire>,
    n: nat,
    d1: Seq<u64>,
    r1: Set<int>,
    d2: Seq<u64>,
    r2: Set<int>,
    i: int,
)
    requires
        is_priming(wires, n, d1, r1),
        is_priming(wires, n, d2, r2),
        forall|s: int, j: int| #[trigger] feeds(wires, s, j) ==> 0 <= s < n,
        0 <= i < n,
        r1.contains(i),
    ensures
        r2.contains(i),
        d2[i] == d1[i],
    decreases d1[i],
{
    assert(in_order(wires, d1, r1, i));
    assert forall|s: int| #[trigger] feeds(wires, s, i) implies r2.contains(s) && d2[s]
        == d1[s] by {
        same_depth(wires, n, d1, r1, d2, r2, s);
    }
    if !r2.contains(i) {
        assert(out_of_order(wires, d2, r2, i));
    } else {
        assert(in_order(wires, d2, r2, i));
        if d1[i] != 0 {
            let s = choose|s: int| #[trigger] feeds(wires, s, i) && d1[i] == d1[s] + 1;
            assert(d2[s] < d2[i]);
        }
        if d2[i] != 0 {
            let s = choose|s: int| #[trigger] feeds(wires, s, i) && d2[i] == d2[s] + 1;
            assert(d1[s] < d1[i]);
        }
    }
}

/// The schedule of the first evaluations is determined by the wires.
pub proof fn priming_is_unique(
    wires: Seq<Wire>,
    n: nat,
    d1: Seq<u64>,
    r1: Set<int>,
    d2: Seq<u64>,
    r2: Set<int>,
)
    requires
        is_priming(wires, n, d1, r1),
        is_priming(wires, n, d2, r2),
        forall|s: int, j: int| #[trigger] feeds(wires, s, j) ==> 0 <= s < n,
    ensures
        d1 == d2,
{
    assert forall|i: int| 0 <= i < n implies d1[i] == d2[i] by {
        if r1.contains(i) {
            same_depth(wires, n, d1, r1, d2, r2, i);
        } else if r2.contains(i) {
            same_depth(wires, n, d2, r2, d1, r1, i);
        } else {
            assert(out_of_order(wires, d1, r1, i));
            assert(out_of_order(wires, d2, r2, i));
        }
    }
    assert(d1 =~= d2);
}

} // verus!
