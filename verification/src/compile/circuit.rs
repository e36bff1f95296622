//! Connects the pins of a circuit.
use vstd::prelude::*;
use crate::compile::geometry;
use crate::compile::geometry::Point;
use crate::compile::nets;
use crate::compile::nets::{join, Dsu, Lane, LaneRef, PointIndex};
use crate::compile::parts;
use crate::compile::parts::{collect, Parts, Pin, PinView};
use crate::compile::error::CompileError;
use crate::compile::ports;
use crate::compile::ports::{port_components, width_of_port, PortTable, PortWidths};
use crate::compile::splitter;
use crate::compile::splitter::{SplitterWiring, WiringView};
use crate::file_format::{Circuit, ComponentInstance, WireSegment};
use crate::netlist::{copy_bits, BitRef, CircuitTemplate, Wire};

verus! {

/// What a wire joins: a bit of one end to the same bit of the other.
pub open spec fn wire_link(wire: WireSegment, b: int) -> (Lane, Lane) {
    (
        Lane { x: wire.from[0] as int, y: wire.from[1] as int, bit: b },
        Lane { x: wire.to[0] as int, y: wire.to[1] as int, bit: b },
    )
}

/// What a splitter joins: a bit of its combined end to a bit of the fanout end that it goes to.
pub open spec fn splitter_link(w: WiringView, b: int) -> (Lane, Lane) {
    let end = w.fanout[w.ends[b] - 1];
    (
        Lane { x: w.combined.0, y: w.combined.1, bit: b },
        Lane { x: end.0, y: end.1, bit: splitter::thread(w.ends, b) as int },
    )
}

pub open spec fn is_wire_link(wires: Seq<WireSegment>, l: (Lane, Lane)) -> bool {
    exists|w: int, b: int|
        0 <= w < wires.len() && 0 <= b < nets::MAX_WIDTH && l == #[trigger] wire_link(wires[w], b)
}

pub open spec fn is_splitter_link(splitters: Seq<WiringView>, l: (Lane, Lane)) -> bool {
    exists|s: int, b: int|
        0 <= s < splitters.len() && 0 <= b < splitters[s].ends.len() && splitters[s].ends[b] > 0
            && l == #[trigger] splitter_link(splitters[s], b)
}

/// Everything that the wires and splitters of a circuit join directly.
pub open spec fn links_of(circuit: Circuit) -> Set<(Lane, Lane)> {
    let splitters = parts::splitters_among(circuit.components@, circuit.components@.len());
    Set::new(
        |l: (Lane, Lane)| is_wire_link(circuit.wires@, l) || is_splitter_link(splitters, l),
    )
}

/// Of the first `b` bits of a pin those that are on a net.
pub open spec fn pin_bits_on(
    pin: PinView,
    links: Set<(Lane, Lane)>,
    lane: Lane,
    b: nat,
) -> Seq<BitRef>
    decreases b,
{
    if b == 0 {
        Seq::empty()
    } else {
        let before = pin_bits_on(pin, links, lane, (b - 1) as nat);
        if nets::joined(links, pin.lane(b - 1), lane) {
            before.push(pin.bit(b - 1))
        } else {
            before
        }
    }
}

/// The bits of the first `k` pins that are on a net.
pub open spec fn bits_on(
    list: Seq<PinView>,
    links: Set<(Lane, Lane)>,
    lane: Lane,
    k: nat,
) -> Seq<BitRef>
    decreases k,
{
    if k == 0 {
        Seq::empty()
    } else {
        bits_on(list, links, lane, (k - 1) as nat) + pin_bits_on(
            list[k - 1],
            links,
            lane,
            list[k - 1].width,
        )
    }
}

/// A wire from each source to the destination.
pub open spec fn fan_in(srcs: Seq<BitRef>, dst: BitRef) -> Seq<Wire> {
    Seq::new(srcs.len(), |i: int| (srcs[i], dst))
}

/// The connections to the first `b` bits of an input pin: from every output bit on their nets.
pub open spec fn pin_connections(
    outputs: Seq<PinView>,
    links: Set<(Lane, Lane)>,
    pin: PinView,
    b: nat,
) -> Seq<Wire>
    decreases b,
{
    if b == 0 {
        Seq::empty()
    } else {
        pin_connections(outputs, links, pin, (b - 1) as nat) + fan_in(
            bits_on(outputs, links, pin.lane(b - 1), outputs.len()),
            pin.bit(b - 1),
        )
    }
}

/// The connections to the first `k` input pins.
pub open spec fn connections_to(
    outputs: Seq<PinView>,
    links: Set<(Lane, Lane)>,
    inputs: Seq<PinView>,
    k: nat,
) -> Seq<Wire>
    decreases k,
{
    if k == 0 {
        Seq::empty()
    } else {
        connections_to(outputs, links, inputs, (k - 1) as nat) + pin_connections(
            outputs,
            links,
            inputs[k - 1],
            inputs[k - 1].width,
        )
    }
}

/// The pins' bits all have lanes.
pub open spec fn pins_fit(list: Seq<PinView>) -> bool {
    forall|i: int| 0 <= i < list.len() ==> (#[trigger] list[i]).width <= nets::MAX_WIDTH
}

/// The places of the pins have these numbers.
pub(crate) open spec fn pins_numbered(
    list: Seq<PinView>,
    nums: Seq<usize>,
    points: Seq<Point>,
) -> bool {
    &&& nums.len() == list.len()
    &&& forall|i: int| 0 <= i < nums.len() ==> numbered(#[trigger] list[i].at, nums[i], points)
}

/// A place has this number.
pub(crate) open spec fn numbered(at: (int, int), n: usize, points: Seq<Point>) -> bool {
    n < points.len() && (points[n as int].0 as int, points[n as int].1 as int) == at
}

proof fn stays_numbered(at: (int, int), n: usize, points: Seq<Point>, more: Seq<Point>)
    requires
        numbered(at, n, points),
        points.is_prefix_of(more),
    ensures
        numbered(at, n, more),
{
    assert(more[n as int] == points[n as int]);
}

proof fn pins_stay_numbered(
    list: Seq<PinView>,
    nums: Seq<usize>,
    points: Seq<Point>,
    more: Seq<Point>,
)
    requires
        pins_numbered(list, nums, points),
        points.is_prefix_of(more),
    ensures
        pins_numbered(list, nums, more),
{
    assert forall|i: int| 0 <= i < nums.len() implies numbered(
        #[trigger] list[i].at,
        nums[i],
        more,
    ) by {
        stays_numbered(list[i].at, nums[i], points, more);
    }
}

proof fn prefix_transitive(a: Seq<Point>, b: Seq<Point>, c: Seq<Point>)
    requires
        a.is_prefix_of(b),
        b.is_prefix_of(c),
    ensures
        a.is_prefix_of(c),
{
    assert(a =~= c.subrange(0, a.len() as int));
}

/// Numbers the places of pins.
fn number_pins(list: &Vec<Pin>, index: &mut PointIndex) -> (r: Vec<usize>)
    requires
        old(index).wf(),
    ensures
        final(index).wf(),
        old(index)@.is_prefix_of(final(index)@),
        pins_numbered(parts::pins(list@), r@, final(index)@),
{
    let ghost start = index@;
    let ghost want = parts::pins(list@);
    let mut r: Vec<usize> = Vec::new();
    for i in 0..list.len()
        invariant
            want == parts::pins(list@),
            index.wf(),
            start.is_prefix_of(index@),
            r@.len() == i,
            forall|j: int| 0 <= j < i ==> numbered(#[trigger] want[j].at, r@[j], index@),
    {
        let ghost points = index@;
        let ghost nums = r@;
        let n: usize = index.number(list[i].at);
        r.push(n);
        proof {
            prefix_transitive(start, points, index@);
            assert forall|j: int| 0 <= j < i + 1 implies numbered(
                #[trigger] want[j].at,
                r@[j],
                index@,
            ) by {
                if j < i {
                    assert(r@[j] == nums[j]);
                    stays_numbered(want[j].at, nums[j], points, index@);
                } else {
                    assert(want[j] == list@[j]@);
                }
            }
        }
    }
    r
}

/// The ends of wires have these numbers.
pub(crate) open spec fn wires_numbered(
    wires: Seq<WireSegment>,
    nums: Seq<(usize, usize)>,
    points: Seq<Point>,
) -> bool {
    &&& nums.len() == wires.len()
    &&& forall|i: int|
        0 <= i < nums.len() ==> wire_numbered(#[trigger] wires[i], nums[i], points)
}

pub(crate) open spec fn wire_numbered(
    wire: WireSegment,
    n: (usize, usize),
    points: Seq<Point>,
) -> bool {
    &&& numbered((wire.from[0] as int, wire.from[1] as int), n.0, points)
    &&& numbered((wire.to[0] as int, wire.to[1] as int), n.1, points)
}

/// Numbers the ends of wires.
fn number_wires(wires: &Vec<WireSegment>, index: &mut PointIndex) -> (r: Vec<(usize, usize)>)
    requires
        old(index).wf(),
    ensures
        final(index).wf(),
        old(index)@.is_prefix_of(final(index)@),
        wires_numbered(wires@, r@, final(index)@),
{
    let ghost start = index@;
    let mut r: Vec<(usize, usize)> = Vec::new();
    for i in 0..wires.len()
        invariant
            index.wf(),
            start.is_prefix_of(index@),
            r@.len() == i,
            forall|j: int| 0 <= j < i ==> wire_numbered(#[trigger] wires@[j], r@[j], index@),
    {
        let ghost points = index@;
        let ghost nums = r@;
        let wire: &WireSegment = &wires[i];
        let from: usize = index.number((wire.from[0] as i128, wire.from[1] as i128));
        let ghost between = index@;
        let to: usize = index.number((wire.to[0] as i128, wire.to[1] as i128));
        r.push((from, to));
        proof {
            prefix_transitive(points, between, index@);
            prefix_transitive(start, points, index@);
            let at = (wire.from[0] as int, wire.from[1] as int);
            assert(numbered(at, from, between));
            stays_numbered(at, from, between, index@);
            assert forall|j: int| 0 <= j < i + 1 implies wire_numbered(
                #[trigger] wires@[j],
                r@[j],
                index@,
            ) by {
                if j < i {
                    let w = wires@[j];
                    assert(r@[j] == nums[j]);
                    stays_numbered((w.from[0] as int, w.from[1] as int), nums[j].0, points, index@);
                    stays_numbered((w.to[0] as int, w.to[1] as int), nums[j].1, points, index@);
                }
            }
        }
    }
    r
}

/// The ends of a splitter have these numbers: the combined end, and the fanout ends.
pub(crate) open spec fn splitter_numbered(
    w: WiringView,
    n: (usize, Vec<usize>),
    points: Seq<Point>,
) -> bool {
    &&& numbered(w.combined, n.0, points)
    &&& n.1@.len() == w.fanout.len()
    &&& forall|e: int| 0 <= e < n.1@.len() ==> numbered(#[trigger] w.fanout[e], n.1@[e], points)
}

pub(crate) open spec fn splitters_numbered(
    list: Seq<WiringView>,
    nums: Seq<(usize, Vec<usize>)>,
    points: Seq<Point>,
) -> bool {
    &&& nums.len() == list.len()
    &&& forall|i: int|
        0 <= i < nums.len() ==> splitter_numbered(#[trigger] list[i], nums[i], points)
}

proof fn splitter_stays_numbered(
    w: WiringView,
    n: (usize, Vec<usize>),
    points: Seq<Point>,
    more: Seq<Point>,
)
    requires
        splitter_numbered(w, n, points),
        points.is_prefix_of(more),
    ensures
        splitter_numbered(w, n, more),
{
    stays_numbered(w.combined, n.0, points, more);
    assert forall|e: int| 0 <= e < n.1@.len() implies numbered(
        #[trigger] w.fanout[e],
        n.1@[e],
        more,
    ) by {
        stays_numbered(w.fanout[e], n.1@[e], points, more);
    }
}

/// Numbers places.
fn number_places(list: &Vec<Point>, index: &mut PointIndex) -> (r: Vec<usize>)
    requires
        old(index).wf(),
    ensures
        final(index).wf(),
        old(index)@.is_prefix_of(final(index)@),
        r@.len() == list@.len(),
        forall|j: int|
            0 <= j < r@.len() ==> numbered(
                #[trigger] geometry::points(list@)[j],
                r@[j],
                final(index)@,
            ),
{
    let ghost start = index@;
    let ghost want = geometry::points(list@);
    let mut r: Vec<usize> = Vec::new();
    for i in 0..list.len()
        invariant
            want == geometry::points(list@),
            index.wf(),
            start.is_prefix_of(index@),
            r@.len() == i,
            forall|j: int| 0 <= j < i ==> numbered(#[trigger] want[j], r@[j], index@),
    {
        let ghost points = index@;
        let ghost nums = r@;
        let n: usize = index.number(list[i]);
        r.push(n);
        proof {
            prefix_transitive(start, points, index@);
            assert forall|j: int| 0 <= j < i + 1 implies numbered(
                #[trigger] want[j],
                r@[j],
                index@,
            ) by {
                if j < i {
                    assert(r@[j] == nums[j]);
                    stays_numbered(want[j], nums[j], points, index@);
                }
            }
        }
    }
    r
}

/// Numbers the ends of splitters.
fn number_splitters(list: &Vec<SplitterWiring>, index: &mut PointIndex) -> (r: Vec<
    (usize, Vec<usize>),
>)
    requires
        old(index).wf(),
    ensures
        final(index).wf(),
        old(index)@.is_prefix_of(final(index)@),
        splitters_numbered(parts::wirings(list@), r@, final(index)@),
{
    let ghost start = index@;
    let ghost want = parts::wirings(list@);
    let mut r: Vec<(usize, Vec<usize>)> = Vec::new();
    for i in 0..list.len()
        invariant
            want == parts::wirings(list@),
            index.wf(),
            start.is_prefix_of(index@),
            r@.len() == i,
            forall|j: int| 0 <= j < i ==> splitter_numbered(#[trigger] want[j], r@[j], index@),
    {
        let ghost points = index@;
        let ghost nums = r@;
        let w: &SplitterWiring = &list[i];
        let combined: usize = index.number(w.combined_point);
        let ghost between = index@;
        let ends: Vec<usize> = number_places(&w.fanout_points, index);
        r.push((combined, ends));
        proof {
            prefix_transitive(points, between, index@);
            prefix_transitive(start, points, index@);
            assert(want[i as int] == w@);
            assert(numbered(w@.combined, combined, between));
            stays_numbered(w@.combined, combined, between, index@);
            assert(splitter_numbered(w@, (combined, ends), index@)) by {
                assert(w@.fanout == geometry::points(w.fanout_points@));
            }
            assert forall|j: int| 0 <= j < i + 1 implies splitter_numbered(
                #[trigger] want[j],
                r@[j],
                index@,
            ) by {
                if j < i {
                    assert(r@[j] == nums[j]);
                    splitter_stays_numbered(want[j], nums[j], points, index@);
                }
            }
        }
    }
    r
}

/// Joins what the wires join.
fn link_wires(
    dsu: &mut Dsu,
    wires: &Vec<WireSegment>,
    nums: &Vec<(usize, usize)>,
    Ghost(points): Ghost<Seq<Point>>,
)
    requires
        old(dsu).wf(),
        old(dsu).size() == points.len(),
        nets::groups_are_nets(*old(dsu), points, Set::empty()),
        wires_numbered(wires@, nums@, points),
    ensures
        final(dsu).wf(),
        final(dsu).size() == points.len(),
        nets::groups_are_nets(
            *final(dsu),
            points,
            Set::new(|l: (Lane, Lane)| is_wire_link(wires@, l)),
        ),
{
    let ghost mut links: Set<(Lane, Lane)> = Set::empty();
    for i in 0..nums.len()
        invariant
            dsu.wf(),
            dsu.size() == points.len(),
            nets::groups_are_nets(*dsu, points, links),
            wires_numbered(wires@, nums@, points),
            forall|l: (Lane, Lane)| #[trigger] links.contains(l) ==> is_wire_link(wires@, l),
            forall|w: int, b: int|
                0 <= w < i && 0 <= b < 32 ==> links.contains(#[trigger] wire_link(wires@[w], b)),
    {
        let (from, to): (usize, usize) = nums[i];
        assert(wire_numbered(wires@[i as int], nums@[i as int], points));
        for b in 0..32u8
            invariant
                i < nums@.len(),
                (from, to) == nums@[i as int],
                wire_numbered(wires@[i as int], (from, to), points),
                dsu.wf(),
                dsu.size() == points.len(),
                nets::groups_are_nets(*dsu, points, links),
                wires_numbered(wires@, nums@, points),
                forall|l: (Lane, Lane)| #[trigger] links.contains(l) ==> is_wire_link(wires@, l),
                forall|w: int, c: int|
                    0 <= w < i && 0 <= c < 32 ==> links.contains(
                        #[trigger] wire_link(wires@[w], c),
                    ),
                forall|c: int|
                    0 <= c < b ==> links.contains(#[trigger] wire_link(wires@[i as int], c)),
        {
            join(dsu, (from, b), (to, b), Ghost(points), Ghost(links));
            proof {
                let l = (nets::lane_of(points, (from, b)), nets::lane_of(points, (to, b)));
                assert(l == wire_link(wires@[i as int], b as int));
                links = links.insert(l);
            }
        }
    }
    proof {
        let all = Set::new(|l: (Lane, Lane)| is_wire_link(wires@, l));
        assert forall|l: (Lane, Lane)| links.contains(l) <==> all.contains(l) by {
            if is_wire_link(wires@, l) {
                let (w, b) = choose|w: int, b: int|
                    0 <= w < wires@.len() && 0 <= b < nets::MAX_WIDTH && l == #[trigger] wire_link(
                        wires@[w],
                        b,
                    );
                assert(links.contains(wire_link(wires@[w], b)));
            }
        }
        assert(links =~= all);
    }
}

/// The bits of a splitter's combined end that have been joined so far.
spec fn splitter_done(
    links: Set<(Lane, Lane)>,
    w: WiringView,
    k: int,
) -> bool {
    forall|b: int|
        0 <= b < k && w.ends[b] > 0 ==> links.contains(#[trigger] splitter_link(w, b))
}

/// Joins what the splitters join.
fn link_splitters(
    dsu: &mut Dsu,
    list: &Vec<SplitterWiring>,
    nums: &Vec<(usize, Vec<usize>)>,
    Ghost(points): Ghost<Seq<Point>>,
    Ghost(start): Ghost<Set<(Lane, Lane)>>,
)
    requires
        old(dsu).wf(),
        old(dsu).size() == points.len(),
        nets::groups_are_nets(*old(dsu), points, start),
        splitters_numbered(parts::wirings(list@), nums@, points),
        forall|i: int| 0 <= i < list@.len() ==> (#[trigger] list@[i]).wf(),
    ensures
        final(dsu).wf(),
        final(dsu).size() == points.len(),
        nets::groups_are_nets(
            *final(dsu),
            points,
            Set::new(
                |l: (Lane, Lane)| start.contains(l) || is_splitter_link(parts::wirings(list@), l),
            ),
        ),
{
    let ghost views = parts::wirings(list@);
    let ghost mut links: Set<(Lane, Lane)> = start;
    for i in 0..nums.len()
        invariant
            dsu.wf(),
            dsu.size() == points.len(),
            nets::groups_are_nets(*dsu, points, links),
            views == parts::wirings(list@),
            splitters_numbered(views, nums@, points),
            forall|i: int| 0 <= i < list@.len() ==> (#[trigger] list@[i]).wf(),
            start.subset_of(links),
            forall|l: (Lane, Lane)| #[trigger]
                links.contains(l) ==> start.contains(l) || is_splitter_link(views, l),
            forall|s: int|
                0 <= s < i ==> splitter_done(links, #[trigger] views[s], views[s].ends.len() as int),
    {
        let w: &SplitterWiring = &list[i];
        let combined: usize = nums[i].0;
        assert(list@[i as int].wf());
        assert(views[i as int] == w@);
        assert(splitter_numbered(views[i as int], nums@[i as int], points));
        let count: usize = w.bit_end.len();
        for b in 0..count
            invariant
                i < nums@.len(),
                i < list@.len(),
                *w == list@[i as int],
                w.wf(),
                w@ == views[i as int],
                count == w.bit_end@.len(),
                combined == nums@[i as int].0,
                dsu.wf(),
                dsu.size() == points.len(),
                nets::groups_are_nets(*dsu, points, links),
                views == parts::wirings(list@),
                splitters_numbered(views, nums@, points),
                splitter_numbered(w@, nums@[i as int], points),
                start.subset_of(links),
                forall|l: (Lane, Lane)| #[trigger]
                    links.contains(l) ==> start.contains(l) || is_splitter_link(views, l),
                forall|s: int|
                    0 <= s < i ==> splitter_done(
                        links,
                        #[trigger] views[s],
                        views[s].ends.len() as int,
                    ),
                splitter_done(links, w@, b as int),
        {
            let end: u8 = w.bit_end[b];
            let ghost before = links;
            if end > 0 {
                assert(w@.ends[b as int] <= w@.fanout.len());
                let e: usize = end as usize - 1;
                assert(numbered(w@.fanout[e as int], nums@[i as int].1@[e as int], points));
                let target: usize = nums[i].1[e];
                let t: u8 = w.bit_thread[b];
                proof {
                    assert(w.bit_thread@[b as int] == splitter::thread(w.bit_end@, b as int));
                    threads_fit(w.bit_end@, b as int);
                }
                join(dsu, (combined, b as u8), (target, t), Ghost(points), Ghost(links));
                proof {
                    let l = (
                        nets::lane_of(points, (combined, b as u8)),
                        nets::lane_of(points, (target, t)),
                    );
                    assert(l == splitter_link(views[i as int], b as int));
                    links = links.insert(l);
                }
            }
            proof {
                assert forall|s: int| 0 <= s < i implies splitter_done(
                    links,
                    #[trigger] views[s],
                    views[s].ends.len() as int,
                ) by {
                    assert(splitter_done(before, views[s], views[s].ends.len() as int));
                }
            }
        }
    }
    proof {
        let all = Set::new(
            |l: (Lane, Lane)| start.contains(l) || is_splitter_link(views, l),
        );
        assert forall|l: (Lane, Lane)| links.contains(l) <==> all.contains(l) by {
            if is_splitter_link(views, l) {
                let (s, b) = choose|s: int, b: int|
                    0 <= s < views.len() && 0 <= b < views[s].ends.len() && views[s].ends[b] > 0
                        && l == #[trigger] splitter_link(views[s], b);
                assert(splitter_done(links, views[s], views[s].ends.len() as int));
                assert(links.contains(splitter_link(views[s], b)));
            }
        }
        assert(links =~= all);
    }
}

proof fn threads_fit(ends: Seq<u8>, i: int)
    requires
        0 <= i < ends.len() <= 32,
    ensures
        splitter::thread(ends, i) < 32,
{
    splitter::bits_to_bound(ends, ends[i], i as nat);
}

/// Of the first `b` bits of a pin those that are in a group.
spec fn pin_bits_in(
    pin: PinView,
    n: usize,
    group: spec_fn(LaneRef) -> LaneRef,
    g: LaneRef,
    b: nat,
) -> Seq<BitRef>
    decreases b,
{
    if b == 0 {
        Seq::empty()
    } else {
        let before = pin_bits_in(pin, n, group, g, (b - 1) as nat);
        if group((n, (b - 1) as u8)) == g {
            before.push(pin.bit(b - 1))
        } else {
            before
        }
    }
}

/// The bits of the first `k` pins that are in a group.
spec fn bits_in(
    list: Seq<PinView>,
    nums: Seq<usize>,
    group: spec_fn(LaneRef) -> LaneRef,
    g: LaneRef,
    k: nat,
) -> Seq<BitRef>
    decreases k,
{
    if k == 0 {
        Seq::empty()
    } else {
        bits_in(list, nums, group, g, (k - 1) as nat) + pin_bits_in(
            list[k - 1],
            nums[k - 1],
            group,
            g,
            list[k - 1].width,
        )
    }
}

/// A pin's bits in a lane's group are those on the lane's net.
proof fn pin_groups_are_nets(
    dsu: Dsu,
    points: Seq<Point>,
    links: Set<(Lane, Lane)>,
    pin: PinView,
    n: usize,
    l: LaneRef,
    b: nat,
)
    requires
        dsu.size() == points.len(),
        nets::groups_are_nets(dsu, points, links),
        numbered(pin.at, n, points),
        dsu.has(l),
        b <= nets::MAX_WIDTH,
    ensures
        pin_bits_in(pin, n, |x: LaneRef| dsu.group(x), dsu.group(l), b) == pin_bits_on(
            pin,
            links,
            nets::lane_of(points, l),
            b,
        ),
    decreases b,
{
    if b > 0 {
        pin_groups_are_nets(dsu, points, links, pin, n, l, (b - 1) as nat);
        let x: LaneRef = (n, (b - 1) as u8);
        assert(dsu.has(x));
        assert(nets::lane_of(points, x) == pin.lane(b - 1));
        assert(dsu.group(x) == dsu.group(l) <==> nets::joined(
            links,
            nets::lane_of(points, x),
            nets::lane_of(points, l),
        ));
    }
}

proof fn all_groups_are_nets(
    dsu: Dsu,
    points: Seq<Point>,
    links: Set<(Lane, Lane)>,
    list: Seq<PinView>,
    nums: Seq<usize>,
    l: LaneRef,
    k: nat,
)
    requires
        dsu.size() == points.len(),
        nets::groups_are_nets(dsu, points, links),
        pins_numbered(list, nums, points),
        pins_fit(list),
        dsu.has(l),
        k <= list.len(),
    ensures
        bits_in(list, nums, |x: LaneRef| dsu.group(x), dsu.group(l), k) == bits_on(
            list,
            links,
            nets::lane_of(points, l),
            k,
        ),
    decreases k,
{
    if k > 0 {
        all_groups_are_nets(dsu, points, links, list, nums, l, (k - 1) as nat);
        assert(numbered(list[k - 1].at, nums[k - 1], points));
        pin_groups_are_nets(
            dsu,
            points,
            links,
            list[k - 1],
            nums[k - 1],
            l,
            list[k - 1].width,
        );
    }
}

/// Bits by the numbered lanes that represent their groups.
type BitTable = Vec<Vec<Vec<BitRef>>>;

/// The table has a list for every lane of `n` places.
spec fn is_table(table: Seq<Vec<Vec<BitRef>>>, n: nat) -> bool {
    &&& table.len() == n
    &&& forall|i: int| 0 <= i < n ==> (#[trigger] table[i])@.len() == 32
}

/// Empty lists for all lanes of `n` places.
fn empty_table(n: usize) -> (r: BitTable)
    ensures
        is_table(r@, n as nat),
        forall|i: int, b: int|
            0 <= i < n && 0 <= b < 32 ==> (#[trigger] r@[i]@[b])@ == Seq::<BitRef>::empty(),
{
    let mut r: BitTable = Vec::new();
    for i in 0..n
        invariant
            is_table(r@, i as nat),
            forall|j: int, b: int|
                0 <= j < i && 0 <= b < 32 ==> (#[trigger] r@[j]@[b])@ == Seq::<BitRef>::empty(),
    {
        let mut row: Vec<Vec<BitRef>> = Vec::new();
        for b in 0..32usize
            invariant
                row@.len() == b,
                forall|c: int| 0 <= c < b ==> (#[trigger] row@[c])@ == Seq::<BitRef>::empty(),
        {
            let list: Vec<BitRef> = Vec::new();
            assert(list@ =~= Seq::<BitRef>::empty());
            row.push(list);
        }
        r.push(row);
    }
    r
}

/// The bits on the net of every lane, listed under the lane that represents its group.
spec fn lists_nets(
    table: Seq<Vec<Vec<BitRef>>>,
    dsu: Dsu,
    points: Seq<Point>,
    links: Set<(Lane, Lane)>,
    list: Seq<PinView>,
) -> bool {
    &&& is_table(table, points.len())
    &&& forall|l: LaneRef|
        dsu.has(l) ==> table[(#[trigger] dsu.group(l)).0 as int]@[dsu.group(l).1 as int]@
            == bits_on(list, links, nets::lane_of(points, l), list.len())
}

/// Sorts the bits of pins by their nets.
fn gather(
    list: &Vec<Pin>,
    nums: &Vec<usize>,
    dsu: &mut Dsu,
    n: usize,
    Ghost(points): Ghost<Seq<Point>>,
    Ghost(links): Ghost<Set<(Lane, Lane)>>,
) -> (r: BitTable)
    requires
        old(dsu).wf(),
        old(dsu).size() == points.len(),
        n == points.len(),
        nets::groups_are_nets(*old(dsu), points, links),
        pins_numbered(parts::pins(list@), nums@, points),
        pins_fit(parts::pins(list@)),
    ensures
        final(dsu).wf(),
        final(dsu).size() == points.len(),
        forall|x: LaneRef| #[trigger] final(dsu).group(x) == old(dsu).group(x),
        lists_nets(r@, *old(dsu), points, links, parts::pins(list@)),
{
    let ghost start = *dsu;
    let ghost group = |x: LaneRef| start.group(x);
    let ghost views = parts::pins(list@);
    let mut r: BitTable = empty_table(n);
    for i in 0..list.len()
        invariant
            n == points.len(),
            dsu.wf(),
            dsu.size() == points.len(),
            start.wf(),
            start.size() == points.len(),
            group == (|x: LaneRef| start.group(x)),
            forall|x: LaneRef| #[trigger] dsu.group(x) == start.group(x),
            views == parts::pins(list@),
            pins_numbered(views, nums@, points),
            pins_fit(views),
            is_table(r@, points.len()),
            forall|p: int, c: int|
                0 <= p < n && 0 <= c < 32 ==> (#[trigger] r@[p]@[c])@ == bits_in(
                    views,
                    nums@,
                    group,
                    (p as usize, c as u8),
                    i as nat,
                ),
    {
        let pin: &Pin = &list[i];
        assert(views[i as int] == pin@);
        assert(numbered(views[i as int].at, nums@[i as int], points));
        assert(views[i as int].width <= 32);
        let width: u8 = pin.width;
        for b in 0..width
            invariant
                n == points.len(),
                dsu.wf(),
                dsu.size() == points.len(),
                start.wf(),
                start.size() == points.len(),
                group == (|x: LaneRef| start.group(x)),
                forall|x: LaneRef| #[trigger] dsu.group(x) == start.group(x),
                views == parts::pins(list@),
                i < list@.len(),
                i < nums@.len(),
                *pin == list@[i as int],
                pin@ == views[i as int],
                width == pin.width,
                width <= 32,
                nums@[i as int] < points.len(),
                is_table(r@, points.len()),
                forall|p: int, c: int|
                    0 <= p < n && 0 <= c < 32 ==> (#[trigger] r@[p]@[c])@ == bits_in(
                        views,
                        nums@,
                        group,
                        (p as usize, c as u8),
                        i as nat,
                    ) + pin_bits_in(
                        views[i as int],
                        nums@[i as int],
                        group,
                        (p as usize, c as u8),
                        b as nat,
                    ),
        {
            let ghost before = r@;
            let l: LaneRef = (nums[i], b);
            assert(dsu.has(l) && start.has(l));
            proof {
                start.groups_have_representatives(l);
            }
            let root: LaneRef = dsu.find(l);
            let at: usize = root.1 as usize;
            r[root.0][at].push((pin.node, pin.pin, b));
            proof {
                assert forall|p: int, c: int| 0 <= p < n && 0 <= c < 32 implies (
                #[trigger] r@[p]@[c])@ == bits_in(
                    views,
                    nums@,
                    group,
                    (p as usize, c as u8),
                    i as nat,
                ) + pin_bits_in(
                    views[i as int],
                    nums@[i as int],
                    group,
                    (p as usize, c as u8),
                    (b + 1) as nat,
                ) by {
                    let g: LaneRef = (p as usize, c as u8);
                    let was = before[p]@[c]@;
                    if g == root {
                        assert(r@[p]@[c]@ == was.push((pin.node, pin.pin, b)));
                        assert(r@[p]@[c]@ =~= bits_in(views, nums@, group, g, i as nat)
                            + pin_bits_in(
                            views[i as int],
                            nums@[i as int],
                            group,
                            g,
                            b as nat,
                        ).push(pin@.bit(b as int)));
                    } else {
                        assert(r@[p]@[c]@ == was);
                    }
                }
            }
        }
    }
    proof {
        assert forall|l: LaneRef| start.has(l) implies r@[(
        #[trigger] start.group(l)).0 as int]@[start.group(l).1 as int]@ == bits_on(
            views,
            links,
            nets::lane_of(points, l),
            views.len(),
        ) by {
            start.groups_have_representatives(l);
            all_groups_are_nets(start, points, links, views, nums@, l, views.len());
            let g = start.group(l);
            assert(r@[g.0 as int]@[g.1 as int]@ == bits_in(
                views,
                nums@,
                group,
                g,
                views.len(),
            ));
        }
    }
    r
}

/// The connections of a circuit.
fn connect(
    list: &Vec<Pin>,
    nums: &Vec<usize>,
    dsu: &mut Dsu,
    drivers: &BitTable,
    Ghost(points): Ghost<Seq<Point>>,
    Ghost(links): Ghost<Set<(Lane, Lane)>>,
    Ghost(outputs): Ghost<Seq<PinView>>,
) -> (r: Vec<Wire>)
    requires
        old(dsu).wf(),
        old(dsu).size() == points.len(),
        pins_numbered(parts::pins(list@), nums@, points),
        pins_fit(parts::pins(list@)),
        lists_nets(drivers@, *old(dsu), points, links, outputs),
    ensures
        final(dsu).wf(),
        final(dsu).size() == points.len(),
        forall|x: LaneRef| #[trigger] final(dsu).group(x) == old(dsu).group(x),
        r@ == connections_to(
            outputs,
            links,
            parts::pins(list@),
            parts::pins(list@).len(),
        ),
{
    let ghost start = *dsu;
    let ghost views = parts::pins(list@);
    let mut r: Vec<Wire> = Vec::new();
    for i in 0..list.len()
        invariant
            dsu.wf(),
            dsu.size() == points.len(),
            start.wf(),
            start.size() == points.len(),
            forall|x: LaneRef| #[trigger] dsu.group(x) == start.group(x),
            views == parts::pins(list@),
            pins_numbered(views, nums@, points),
            pins_fit(views),
            lists_nets(drivers@, start, points, links, outputs),
            r@ == connections_to(outputs, links, views, i as nat),
    {
        let pin: &Pin = &list[i];
        assert(views[i as int] == pin@);
        assert(numbered(views[i as int].at, nums@[i as int], points));
        assert(views[i as int].width <= 32);
        let width: u8 = pin.width;
        let ghost done = r@;
        assert(r@ =~= done + pin_connections(outputs, links, pin@, 0));
        for b in 0..width
            invariant
                dsu.wf(),
                dsu.size() == points.len(),
                start.wf(),
                start.size() == points.len(),
                forall|x: LaneRef| #[trigger] dsu.group(x) == start.group(x),
                i < list@.len(),
                i < nums@.len(),
                *pin == list@[i as int],
                width == pin.width,
                width <= 32,
                numbered(pin@.at, nums@[i as int], points),
                lists_nets(drivers@, start, points, links, outputs),
                r@ == done + pin_connections(outputs, links, pin@, b as nat),
        {
            let l: LaneRef = (nums[i], b);
            assert(dsu.has(l) && start.has(l));
            proof {
                start.groups_have_representatives(l);
            }
            let root: LaneRef = dsu.find(l);
            let at: usize = root.1 as usize;
            let ghost srcs = bits_on(outputs, links, pin@.lane(b as int), outputs.len());
            assert(nets::lane_of(points, l) == pin@.lane(b as int));
            assert(start.group(l) == root);
            assert(drivers@[root.0 as int]@[root.1 as int]@ == srcs);
            let ghost so_far = r@;
            let dst: BitRef = (pin.node, pin.pin, b);
            let count: usize = drivers[root.0][at].len();
            for k in 0..count
                invariant
                    root.0 < drivers@.len(),
                    at == root.1,
                    at < drivers@[root.0 as int]@.len(),
                    drivers@[root.0 as int]@[at as int]@ == srcs,
                    count == srcs.len(),
                    r@ == so_far + fan_in(srcs, dst).take(k as int),
            {
                let src: BitRef = drivers[root.0][at][k];
                r.push((src, dst));
                assert(fan_in(srcs, dst).take(k + 1) =~= fan_in(srcs, dst).take(k as int).push(
                    (src, dst),
                ));
                assert(r@ =~= so_far + fan_in(srcs, dst).take(k + 1));
            }
            proof {
                assert(fan_in(srcs, dst).take(count as int) =~= fan_in(srcs, dst));
                assert(dst == pin@.bit(b as int));
                assert(r@ =~= done + pin_connections(outputs, links, pin@, (b + 1) as nat));
            }
        }
    }
    r
}

/// The place of a port.
pub open spec fn port_lane(comp: ComponentInstance, b: int) -> Lane {
    Lane { x: comp.x as int, y: comp.y as int, bit: b }
}

/// The lists hold for each port, in order, and each of its bits the pins' bits on its net.
pub open spec fn are_ports(
    comps: Seq<ComponentInstance>,
    order: Seq<int>,
    links: Set<(Lane, Lane)>,
    list: Seq<PinView>,
    lists: Seq<Vec<Vec<BitRef>>>,
) -> bool {
    &&& lists.len() == order.len()
    &&& forall|k: int|
        0 <= k < order.len() ==> (#[trigger] lists[k])@.len() == ports::port_width(comps[order[k]])
    &&& forall|k: int, b: int|
        0 <= k < order.len() && 0 <= b < lists[k]@.len() ==> (#[trigger] lists[k]@[b])@ == bits_on(
            list,
            links,
            port_lane(comps[order[k]], b),
            list.len(),
        )
}

/// Numbers the places of components.
fn number_components(circuit: &Circuit, order: &Vec<usize>, index: &mut PointIndex) -> (r: Vec<
    usize,
>)
    requires
        old(index).wf(),
        forall|i: int|
            0 <= i < order@.len() ==> (#[trigger] order@[i]) < circuit.components@.len(),
    ensures
        final(index).wf(),
        old(index)@.is_prefix_of(final(index)@),
        places_numbered(circuit.components@, order@, r@, final(index)@),
{
    let ghost start = index@;
    let ghost comps = circuit.components@;
    let mut r: Vec<usize> = Vec::new();
    for i in 0..order.len()
        invariant
            comps == circuit.components@,
            forall|i: int| 0 <= i < order@.len() ==> (#[trigger] order@[i]) < comps.len(),
            index.wf(),
            start.is_prefix_of(index@),
            r@.len() == i,
            forall|j: int|
                0 <= j < i ==> numbered(place_of(comps[(#[trigger] order@[j]) as int]), r@[j], index@),
    {
        let ghost points = index@;
        let ghost nums = r@;
        let comp: &ComponentInstance = &circuit.components[order[i]];
        let n: usize = index.number((comp.x as i128, comp.y as i128));
        r.push(n);
        proof {
            prefix_transitive(start, points, index@);
            assert forall|j: int| 0 <= j < i + 1 implies numbered(
                place_of(comps[(#[trigger] order@[j]) as int]),
                r@[j],
                index@,
            ) by {
                if j < i {
                    assert(r@[j] == nums[j]);
                    stays_numbered(place_of(comps[order@[j] as int]), nums[j], points, index@);
                }
            }
        }
    }
    r
}

spec fn place_of(comp: ComponentInstance) -> (int, int) {
    (comp.x as int, comp.y as int)
}

spec fn places_numbered(
    comps: Seq<ComponentInstance>,
    order: Seq<usize>,
    nums: Seq<usize>,
    points: Seq<Point>,
) -> bool {
    &&& nums.len() == order.len()
    &&& forall|j: int|
        0 <= j < nums.len() ==> numbered(
            place_of(comps[(#[trigger] order[j]) as int]),
            nums[j],
            points,
        )
}

proof fn places_stay_numbered(
    comps: Seq<ComponentInstance>,
    order: Seq<usize>,
    nums: Seq<usize>,
    points: Seq<Point>,
    more: Seq<Point>,
)
    requires
        places_numbered(comps, order, nums, points),
        points.is_prefix_of(more),
    ensures
        places_numbered(comps, order, nums, more),
{
    assert forall|j: int| 0 <= j < nums.len() implies numbered(
        place_of(comps[(#[trigger] order[j]) as int]),
        nums[j],
        more,
    ) by {
        stays_numbered(place_of(comps[order[j] as int]), nums[j], points, more);
    }
}

/// What is on the nets of ports.
fn port_lists(
    circuit: &Circuit,
    order: &Vec<usize>,
    nums: &Vec<usize>,
    dsu: &mut Dsu,
    table: &BitTable,
    Ghost(points): Ghost<Seq<Point>>,
    Ghost(links): Ghost<Set<(Lane, Lane)>>,
    Ghost(list): Ghost<Seq<PinView>>,
) -> (r: BitTable)
    requires
        old(dsu).wf(),
        old(dsu).size() == points.len(),
        forall|i: int|
            0 <= i < order@.len() ==> (#[trigger] order@[i]) < circuit.components@.len(),
        places_numbered(circuit.components@, order@, nums@, points),
        lists_nets(table@, *old(dsu), points, links, list),
    ensures
        final(dsu).wf(),
        final(dsu).size() == points.len(),
        forall|x: LaneRef| #[trigger] final(dsu).group(x) == old(dsu).group(x),
        are_ports(circuit.components@, ports::numbers(order@), links, list, r@),
{
    let ghost start = *dsu;
    let ghost comps = circuit.components@;
    let ghost ord = ports::numbers(order@);
    let mut r: BitTable = Vec::new();
    for k in 0..order.len()
        invariant
            comps == circuit.components@,
            ord == ports::numbers(order@),
            dsu.wf(),
            dsu.size() == points.len(),
            start.wf(),
            start.size() == points.len(),
            forall|x: LaneRef| #[trigger] dsu.group(x) == start.group(x),
            forall|i: int| 0 <= i < order@.len() ==> (#[trigger] order@[i]) < comps.len(),
            places_numbered(comps, order@, nums@, points),
            lists_nets(table@, start, points, links, list),
            r@.len() == k,
            forall|j: int|
                0 <= j < k ==> (#[trigger] r@[j])@.len() == ports::port_width(comps[ord[j]]),
            forall|j: int, b: int|
                0 <= j < k && 0 <= b < r@[j]@.len() ==> (#[trigger] r@[j]@[b])@ == bits_on(
                    list,
                    links,
                    port_lane(comps[ord[j]], b),
                    list.len(),
                ),
    {
        let comp: &ComponentInstance = &circuit.components[order[k]];
        assert(ord[k as int] == order@[k as int]);
        assert(numbered(place_of(comps[order@[k as int] as int]), nums@[k as int], points));
        let width: u8 = width_of_port(circuit, comp);
        let mut bits: Vec<Vec<BitRef>> = Vec::new();
        for b in 0..width
            invariant
                width <= 32,
                k < order@.len(),
                k < nums@.len(),
                dsu.wf(),
                dsu.size() == points.len(),
                start.wf(),
                start.size() == points.len(),
                forall|x: LaneRef| #[trigger] dsu.group(x) == start.group(x),
                numbered(place_of(*comp), nums@[k as int], points),
                lists_nets(table@, start, points, links, list),
                bits@.len() == b,
                forall|c: int|
                    0 <= c < b ==> (#[trigger] bits@[c])@ == bits_on(
                        list,
                        links,
                        port_lane(*comp, c),
                        list.len(),
                    ),
        {
            let l: LaneRef = (nums[k], b);
            assert(dsu.has(l) && start.has(l));
            proof {
                start.groups_have_representatives(l);
            }
            let root: LaneRef = dsu.find(l);
            let at: usize = root.1 as usize;
            assert(nets::lane_of(points, l) == port_lane(*comp, b as int));
            assert(start.group(l) == root);
            bits.push(copy_bits(&table[root.0][at]));
        }
        r.push(bits);
    }
    r
}

/// The nodes that declare ports: of the input ports, then of the output ports.
pub open spec fn marker_nodes(circuit: Circuit) -> Seq<usize> {
    let comps = circuit.components@;
    let order = ports::port_order(comps, "core:InputPin"@, comps.len()) + ports::port_order(
        comps,
        "core:OutputPin"@,
        comps.len(),
    );
    Seq::new(order.len(), |i: int| parts::nodes_among(comps, order[i] as nat) as usize)
}

/// The template is what the circuit compiles to.
pub open spec fn is_compiled(
    table: Map<Seq<char>, PortWidths>,
    circuit: Circuit,
    t: CircuitTemplate,
) -> bool {
    let comps = circuit.components@;
    let links = links_of(circuit);
    let inputs = parts::all_inputs(table, comps, comps.len());
    let outputs = parts::all_outputs(table, comps, comps.len());
    &&& t.name@ == circuit.name@
    &&& parts::are_nodes_of(table, comps, comps.len(), t.nodes@)
    &&& t.connections@ == connections_to(outputs, links, inputs, inputs.len())
    &&& are_ports(
        comps,
        ports::port_order(comps, "core:InputPin"@, comps.len()),
        links,
        inputs,
        t.input_ports@,
    )
    &&& are_ports(
        comps,
        ports::port_order(comps, "core:OutputPin"@, comps.len()),
        links,
        outputs,
        t.output_ports@,
    )
    &&& t.port_marker_nodes@ == marker_nodes(circuit)
    &&& t.component_index@ == parts::index_of(comps, comps.len())
}

proof fn pins_of_parts_fit(
    table: Map<Seq<char>, PortWidths>,
    circuit: Circuit,
    k: nat,
)
    requires
        ports::is_sane(table),
        k <= circuit.components@.len(),
        parts::circuit_error(table, circuit, circuit.components@.len()) is None,
    ensures
        pins_fit(parts::all_inputs(table, circuit.components@, k)),
        pins_fit(parts::all_outputs(table, circuit.components@, k)),
    decreases k,
{
    if k > 0 {
        pins_of_parts_fit(table, circuit, (k - 1) as nat);
        let comps = circuit.components@;
        let comp = comps[k - 1];
        let n = parts::nodes_among(comps, (k - 1) as nat);
        parts::no_error_means_parts(table, circuit, comps.len(), k - 1);
        match parts::part_of(table, comp) {
            Ok(parts::Part::Leaf(leaf)) => {
                parts::leaves_are_sound(comp);
                geometry::every_pin_has_a_place(leaf);
                assert forall|i: int| 0 <= i < parts::part_inputs(table, comp, n).len() implies (
                #[trigger] parts::part_inputs(table, comp, n)[i]).width <= 32 by {
                    assert(parts::is_width(leaf.initial().input_width(i)));
                }
                assert forall|i: int| 0 <= i < parts::part_outputs(table, comp, n).len() implies (
                #[trigger] parts::part_outputs(table, comp, n)[i]).width <= 32 by {
                    assert(parts::is_width(leaf.initial().output_width(i)));
                }
            },
            _ => {},
        }
        let a = parts::all_inputs(table, comps, (k - 1) as nat);
        let b = parts::part_inputs(table, comp, n);
        assert forall|i: int| 0 <= i < (a + b).len() implies (#[trigger] (a + b)[i]).width
            <= nets::MAX_WIDTH by {
            if i < a.len() {
                assert((a + b)[i] == a[i]);
            } else {
                assert((a + b)[i] == b[i - a.len()]);
            }
        }
        let c = parts::all_outputs(table, comps, (k - 1) as nat);
        let d = parts::part_outputs(table, comp, n);
        assert forall|i: int| 0 <= i < (c + d).len() implies (#[trigger] (c + d)[i]).width
            <= nets::MAX_WIDTH by {
            if i < c.len() {
                assert((c + d)[i] == c[i]);
            } else {
                assert((c + d)[i] == d[i - c.len()]);
            }
        }
    }
}

/// Adds the nodes that declare ports.
fn push_markers(
    markers: &mut Vec<usize>,
    order: &Vec<usize>,
    numbers: &Vec<usize>,
    Ghost(comps): Ghost<Seq<ComponentInstance>>,
)
    requires
        numbers@.len() == comps.len(),
        forall|i: int|
            0 <= i < comps.len() ==> #[trigger] numbers@[i] == parts::nodes_among(comps, i as nat),
        forall|i: int| 0 <= i < order@.len() ==> (#[trigger] order@[i]) < comps.len(),
    ensures
        final(markers)@ == old(markers)@ + Seq::new(
            order@.len(),
            |i: int| parts::nodes_among(comps, order@[i] as nat) as usize,
        ),
{
    let ghost before = markers@;
    let ghost want = Seq::new(
        order@.len(),
        |i: int| parts::nodes_among(comps, order@[i] as nat) as usize,
    );
    for k in 0..order.len()
        invariant
            numbers@.len() == comps.len(),
            forall|i: int|
                0 <= i < comps.len() ==> #[trigger] numbers@[i] == parts::nodes_among(
                    comps,
                    i as nat,
                ),
            forall|i: int| 0 <= i < order@.len() ==> (#[trigger] order@[i]) < comps.len(),
            want == Seq::new(
                order@.len(),
                |i: int| parts::nodes_among(comps, order@[i] as nat) as usize,
            ),
            markers@ == before + want.take(k as int),
    {
        let c: usize = order[k];
        assert(numbers@[c as int] == parts::nodes_among(comps, c as nat));
        markers.push(numbers[c]);
        assert(want.take(k + 1) =~= want.take(k as int).push(want[k as int]));
        assert(markers@ =~= before + want.take(k + 1));
    }
    assert(want.take(want.len() as int) =~= want);
    assert(markers@ =~= before + want);
}

/// Compiles a circuit.
pub(crate) fn compile_circuit(circuit: &Circuit, table: &PortTable) -> (r: Result<
    CircuitTemplate,
    CompileError,
>)
    requires
        ports::is_sane(ports::table_view(table@)),
    ensures
        match (
            r,
            parts::circuit_error(ports::table_view(table@), *circuit, circuit.components@.len()),
        ) {
            (Ok(t), None) => is_compiled(ports::table_view(table@), *circuit, t),
            (Err(e), Some(want)) => e@ == want,
            _ => false,
        },
{
    let ghost view = ports::table_view(table@);
    let ghost comps = circuit.components@;
    let found: Parts = match collect(circuit, table) {
        Ok(found) => found,
        Err(e) => {
            return Err(e);
        },
    };
    let ghost inputs = parts::all_inputs(view, comps, comps.len());
    let ghost outputs = parts::all_outputs(view, comps, comps.len());
    let ghost splitters = parts::splitters_among(comps, comps.len());
    proof {
        pins_of_parts_fit(view, *circuit, comps.len());
    }
    let in_order: Vec<usize> = port_components(circuit, "core:InputPin");
    let out_order: Vec<usize> = port_components(circuit, "core:OutputPin");

    let mut index: PointIndex = PointIndex::new();
    let input_nums: Vec<usize> = number_pins(&found.inputs, &mut index);
    let ghost p1 = index@;
    let output_nums: Vec<usize> = number_pins(&found.outputs, &mut index);
    let ghost p2 = index@;
    let wire_nums: Vec<(usize, usize)> = number_wires(&circuit.wires, &mut index);
    let ghost p3 = index@;
    let splitter_nums: Vec<(usize, Vec<usize>)> = number_splitters(&found.splitters, &mut index);
    let ghost p4 = index@;
    let in_port_nums: Vec<usize> = number_components(circuit, &in_order, &mut index);
    let ghost p5 = index@;
    let out_port_nums: Vec<usize> = number_components(circuit, &out_order, &mut index);
    let ghost points = index@;
    proof {
        prefix_transitive(p4, p5, points);
        prefix_transitive(p3, p4, points);
        prefix_transitive(p2, p3, points);
        prefix_transitive(p1, p2, points);
        pins_stay_numbered(inputs, input_nums@, p1, points);
        pins_stay_numbered(outputs, output_nums@, p2, points);
        assert forall|i: int| 0 <= i < wire_nums@.len() implies wire_numbered(
            #[trigger] circuit.wires@[i],
            wire_nums@[i],
            points,
        ) by {
            let w = circuit.wires@[i];
            assert(wire_numbered(w, wire_nums@[i], p3));
            stays_numbered((w.from[0] as int, w.from[1] as int), wire_nums@[i].0, p3, points);
            stays_numbered((w.to[0] as int, w.to[1] as int), wire_nums@[i].1, p3, points);
        }
        assert forall|i: int| 0 <= i < splitter_nums@.len() implies splitter_numbered(
            #[trigger] splitters[i],
            splitter_nums@[i],
            points,
        ) by {
            splitter_stays_numbered(splitters[i], splitter_nums@[i], p4, points);
        }
        places_stay_numbered(comps, in_order@, in_port_nums@, p5, points);
        index.places_are_distinct();
    }

    let n: usize = index.len();
    let mut dsu: Dsu = Dsu::new(n);
    proof {
        nets::nets_without_links(dsu, points);
    }
    link_wires(&mut dsu, &circuit.wires, &wire_nums, Ghost(points));
    let ghost wired = Set::new(|l: (Lane, Lane)| is_wire_link(circuit.wires@, l));
    link_splitters(&mut dsu, &found.splitters, &splitter_nums, Ghost(points), Ghost(wired));
    let ghost links = links_of(*circuit);
    proof {
        assert(Set::new(
            |l: (Lane, Lane)|
                wired.contains(l) || is_splitter_link(parts::wirings(found.splitters@), l),
        ) =~= links);
    }

    let ghost grouped = dsu;
    let sinks: BitTable = gather(
        &found.inputs,
        &input_nums,
        &mut dsu,
        n,
        Ghost(points),
        Ghost(links),
    );
    proof {
        same_nets(grouped, dsu, points, links);
        lists_stay(grouped, dsu, sinks@, points, links, inputs);
    }
    let ghost between = dsu;
    let drivers: BitTable = gather(
        &found.outputs,
        &output_nums,
        &mut dsu,
        n,
        Ghost(points),
        Ghost(links),
    );
    proof {
        lists_stay(between, dsu, sinks@, points, links, inputs);
        lists_stay(between, dsu, drivers@, points, links, outputs);
    }
    let ghost d1 = dsu;
    let connections: Vec<Wire> = connect(
        &found.inputs,
        &input_nums,
        &mut dsu,
        &drivers,
        Ghost(points),
        Ghost(links),
        Ghost(outputs),
    );
    proof {
        lists_stay(d1, dsu, sinks@, points, links, inputs);
        lists_stay(d1, dsu, drivers@, points, links, outputs);
    }
    let ghost d2 = dsu;
    let input_ports: BitTable = port_lists(
        circuit,
        &in_order,
        &in_port_nums,
        &mut dsu,
        &sinks,
        Ghost(points),
        Ghost(links),
        Ghost(inputs),
    );
    proof {
        lists_stay(d2, dsu, drivers@, points, links, outputs);
    }
    let output_ports: BitTable = port_lists(
        circuit,
        &out_order,
        &out_port_nums,
        &mut dsu,
        &drivers,
        Ghost(points),
        Ghost(links),
        Ghost(outputs),
    );

    let mut port_marker_nodes: Vec<usize> = Vec::new();
    push_markers(&mut port_marker_nodes, &in_order, &found.numbers, Ghost(comps));
    push_markers(&mut port_marker_nodes, &out_order, &found.numbers, Ghost(comps));
    proof {
        assert forall|i: int| 0 <= i < in_order@.len() implies ports::numbers(in_order@)[i]
            == in_order@[i] by {
        }
        assert forall|i: int| 0 <= i < out_order@.len() implies ports::numbers(out_order@)[i]
            == out_order@[i] by {
        }
        assert(port_marker_nodes@ =~= marker_nodes(*circuit));
    }
    let t = CircuitTemplate {
        name: circuit.name.clone(),
        nodes: found.nodes,
        connections,
        input_ports,
        output_ports,
        port_marker_nodes,
        component_index: found.index,
    };
    Ok(t)
}

/// The same groups are the same nets.
proof fn same_nets(a: Dsu, b: Dsu, points: Seq<Point>, links: Set<(Lane, Lane)>)
    requires
        a.size() == b.size(),
        forall|x: LaneRef| #[trigger] b.group(x) == a.group(x),
        nets::groups_are_nets(a, points, links),
    ensures
        nets::groups_are_nets(b, points, links),
{
    assert forall|c: LaneRef, d: LaneRef| b.has(c) && b.has(d) implies (#[trigger] b.group(c)
        == #[trigger] b.group(d) <==> nets::joined(
        links,
        nets::lane_of(points, c),
        nets::lane_of(points, d),
    )) by {
        assert(a.has(c) && a.has(d));
        assert(a.group(c) == a.group(d) <==> nets::joined(
            links,
            nets::lane_of(points, c),
            nets::lane_of(points, d),
        ));
    }
}

proof fn lists_stay(
    a: Dsu,
    b: Dsu,
    table: Seq<Vec<Vec<BitRef>>>,
    points: Seq<Point>,
    links: Set<(Lane, Lane)>,
    list: Seq<PinView>,
)
    requires
        a.size() == b.size(),
        forall|x: LaneRef| #[trigger] b.group(x) == a.group(x),
        lists_nets(table, a, points, links, list),
    ensures
        lists_nets(table, b, points, links, list),
{
    assert forall|l: LaneRef| b.has(l) implies table[(
    #[trigger] b.group(l)).0 as int]@[b.group(l).1 as int]@ == bits_on(
        list,
        links,
        nets::lane_of(points, l),
        list.len(),
    ) by {
        assert(a.has(l));
        assert(table[a.group(l).0 as int]@[a.group(l).1 as int]@ == bits_on(
            list,
            links,
            nets::lane_of(points, l),
            list.len(),
        ));
    }
}

} // verus!
