//! Nets: which bits of which places are electrically one.
//!
//! A place carries up to 32 bits, and each is connected on its own: a wire joins all bits of
//! its two ends, a splitter joins a bit of one place to another bit of another place.
use std::collections::HashMap;
use vstd::prelude::*;
use crate::compile::geometry::Point;

verus! {

/// A place carries this many bits at most.
pub const MAX_WIDTH: u8 = 32;

/// One bit of a place.
pub struct Lane {
    pub x: int,
    pub y: int,
    pub bit: int,
}

/// Two lanes are joined directly.
pub open spec fn adjacent(links: Set<(Lane, Lane)>, a: Lane, b: Lane) -> bool {
    links.contains((a, b)) || links.contains((b, a))
}

/// From one lane to another in `n` direct joints.
pub open spec fn reaches(links: Set<(Lane, Lane)>, a: Lane, b: Lane, n: nat) -> bool
    decreases n,
{
    if n == 0 {
        a == b
    } else {
        exists|c: Lane| reaches(links, a, c, (n - 1) as nat) && #[trigger] adjacent(links, c, b)
    }
}

/// Two lanes are on the same net: some number of direct joints leads from one to the other.
pub open spec fn joined(links: Set<(Lane, Lane)>, a: Lane, b: Lane) -> bool {
    exists|n: nat| #[trigger] reaches(links, a, b, n)
}

/// Every lane is on its own net.
pub proof fn joined_reflexive(links: Set<(Lane, Lane)>, a: Lane)
    ensures
        joined(links, a, a),
{
    assert(reaches(links, a, a, 0));
}

proof fn joined_step(links: Set<(Lane, Lane)>, a: Lane, b: Lane, c: Lane)
    requires
        joined(links, a, b),
        adjacent(links, b, c),
    ensures
        joined(links, a, c),
{
    let n = choose|n: nat| #[trigger] reaches(links, a, b, n);
    assert(reaches(links, a, c, n + 1));
}

proof fn joined_onwards(links: Set<(Lane, Lane)>, a: Lane, b: Lane, c: Lane, n: nat)
    requires
        joined(links, a, b),
        reaches(links, b, c, n),
    ensures
        joined(links, a, c),
    decreases n,
{
    if n > 0 {
        let d = choose|d: Lane|
            reaches(links, b, d, (n - 1) as nat) && #[trigger] adjacent(links, d, c);
        joined_onwards(links, a, b, d, (n - 1) as nat);
        joined_step(links, a, d, c);
    }
}

/// What is on one net with the same lane is on one net.
pub proof fn joined_transitive(links: Set<(Lane, Lane)>, a: Lane, b: Lane, c: Lane)
    requires
        joined(links, a, b),
        joined(links, b, c),
    ensures
        joined(links, a, c),
{
    let n = choose|n: nat| #[trigger] reaches(links, b, c, n);
    joined_onwards(links, a, b, c, n);
}

proof fn joined_back(links: Set<(Lane, Lane)>, a: Lane, b: Lane, n: nat)
    requires
        reaches(links, a, b, n),
    ensures
        joined(links, b, a),
    decreases n,
{
    joined_reflexive(links, b);
    if n > 0 {
        let c = choose|c: Lane|
            reaches(links, a, c, (n - 1) as nat) && #[trigger] adjacent(links, c, b);
        joined_back(links, a, c, (n - 1) as nat);
        joined_step(links, b, b, c);
        joined_transitive(links, b, c, a);
    }
}

/// Nets have no direction.
pub proof fn joined_symmetric(links: Set<(Lane, Lane)>, a: Lane, b: Lane)
    ensures
        joined(links, a, b) == joined(links, b, a),
{
    if joined(links, a, b) {
        let n = choose|n: nat| #[trigger] reaches(links, a, b, n);
        joined_back(links, a, b, n);
    }
    if joined(links, b, a) {
        let n = choose|n: nat| #[trigger] reaches(links, b, a, n);
        joined_back(links, b, a, n);
    }
}

/// Whatever is joined directly is on one net.
pub proof fn links_are_joined(links: Set<(Lane, Lane)>, a: Lane, b: Lane)
    requires
        adjacent(links, a, b),
    ensures
        joined(links, a, b),
{
    joined_reflexive(links, a);
    joined_step(links, a, a, b);
}

/// Nothing is on one net without need: a way of grouping lanes that keeps everything together
/// that is joined directly keeps every net together.
pub proof fn nets_are_least(
    links: Set<(Lane, Lane)>,
    group: spec_fn(Lane) -> int,
    a: Lane,
    b: Lane,
)
    requires
        forall|c: Lane, d: Lane| #[trigger] links.contains((c, d)) ==> group(c) == group(d),
        joined(links, a, b),
    ensures
        group(a) == group(b),
{
    let n = choose|n: nat| #[trigger] reaches(links, a, b, n);
    grouped_along(links, group, a, b, n);
}

proof fn grouped_along(
    links: Set<(Lane, Lane)>,
    group: spec_fn(Lane) -> int,
    a: Lane,
    b: Lane,
    n: nat,
)
    requires
        forall|c: Lane, d: Lane| #[trigger] links.contains((c, d)) ==> group(c) == group(d),
        reaches(links, a, b, n),
    ensures
        group(a) == group(b),
    decreases n,
{
    if n > 0 {
        let c = choose|c: Lane|
            reaches(links, a, c, (n - 1) as nat) && #[trigger] adjacent(links, c, b);
        grouped_along(links, group, a, c, (n - 1) as nat);
    }
}

proof fn more_links(small: Set<(Lane, Lane)>, big: Set<(Lane, Lane)>, a: Lane, b: Lane, n: nat)
    requires
        small.subset_of(big),
        reaches(small, a, b, n),
    ensures
        joined(big, a, b),
    decreases n,
{
    joined_reflexive(big, a);
    if n > 0 {
        let c = choose|c: Lane|
            reaches(small, a, c, (n - 1) as nat) && #[trigger] adjacent(small, c, b);
        more_links(small, big, a, c, (n - 1) as nat);
        assert(adjacent(big, c, b));
        joined_step(big, a, c, b);
    }
}

/// Two lanes are joined, or would be through a joint between `u` and `v`.
spec fn joined_over(links: Set<(Lane, Lane)>, u: Lane, v: Lane, a: Lane, b: Lane) -> bool {
    ||| joined(links, a, b)
    ||| joined(links, a, u) && joined(links, v, b)
    ||| joined(links, a, v) && joined(links, u, b)
}

proof fn over_step(
    links: Set<(Lane, Lane)>,
    u: Lane,
    v: Lane,
    a: Lane,
    b: Lane,
    c: Lane,
)
    requires
        joined_over(links, u, v, a, b),
        adjacent(links.insert((u, v)), b, c),
    ensures
        joined_over(links, u, v, a, c),
{
    joined_reflexive(links, u);
    joined_reflexive(links, v);
    if adjacent(links, b, c) {
        if joined(links, a, b) {
            joined_step(links, a, b, c);
        } else if joined(links, a, u) && joined(links, v, b) {
            joined_step(links, v, b, c);
        } else {
            joined_step(links, u, b, c);
        }
    } else {
        assert((b == u && c == v) || (b == v && c == u));
    }
}

proof fn over_all(
    links: Set<(Lane, Lane)>,
    u: Lane,
    v: Lane,
    a: Lane,
    b: Lane,
    n: nat,
)
    requires
        reaches(links.insert((u, v)), a, b, n),
    ensures
        joined_over(links, u, v, a, b),
    decreases n,
{
    let more = links.insert((u, v));
    joined_reflexive(links, a);
    if n > 0 {
        let c = choose|c: Lane|
            reaches(more, a, c, (n - 1) as nat) && #[trigger] adjacent(more, c, b);
        over_all(links, u, v, a, c, (n - 1) as nat);
        over_step(links, u, v, a, c, b);
    }
}

/// What one more joint joins.
proof fn one_more_link(links: Set<(Lane, Lane)>, u: Lane, v: Lane, a: Lane, b: Lane)
    ensures
        joined(links.insert((u, v)), a, b) == joined_over(links, u, v, a, b),
{
    let more = links.insert((u, v));
    if joined(more, a, b) {
        let n = choose|n: nat| #[trigger] reaches(more, a, b, n);
        over_all(links, u, v, a, b, n);
    }
    if joined_over(links, u, v, a, b) {
        assert(adjacent(more, u, v));
        assert(adjacent(more, v, u));
        assert forall|c: Lane, d: Lane| joined(links, c, d) implies #[trigger] joined(
            more,
            c,
            d,
        ) by {
            let n = choose|n: nat| #[trigger] reaches(links, c, d, n);
            more_links(links, more, c, d, n);
        }
        if joined(links, a, b) {
            assert(joined(more, a, b));
        } else if joined(links, a, u) && joined(links, v, b) {
            assert(joined(more, a, u) && joined(more, v, b));
            joined_step(more, a, u, v);
            joined_transitive(more, a, v, b);
        } else {
            assert(joined(more, a, v) && joined(more, u, b));
            joined_step(more, a, v, u);
            joined_transitive(more, a, u, b);
        }
    }
}

proof fn no_links(a: Lane, b: Lane)
    ensures
        joined(Set::<(Lane, Lane)>::empty(), a, b) == (a == b),
{
    let none = Set::<(Lane, Lane)>::empty();
    joined_reflexive(none, a);
    if joined(none, a, b) {
        let n = choose|n: nat| #[trigger] reaches(none, a, b, n);
        if n > 0 {
            let c = choose|c: Lane|
                reaches(none, a, c, (n - 1) as nat) && #[trigger] adjacent(none, c, b);
            assert(adjacent(none, c, b));
        }
    }
}

/// A numbered place and one of its bits.
pub type LaneRef = (usize, u8);

/// Two lanes are not the same.
fn differ(a: LaneRef, b: LaneRef) -> (r: bool)
    ensures
        r == (a != b),
{
    a.0 != b.0 || a.1 != b.1
}

/// A union-find structure over the lanes of numbered places.
pub struct Dsu {
    parent: Vec<Vec<LaneRef>>,
    rep: Ghost<spec_fn(LaneRef) -> LaneRef>,
    level: Ghost<spec_fn(LaneRef) -> nat>,
    top: Ghost<nat>,
}

impl Dsu {
    /// The number of places.
    pub closed spec fn size(&self) -> nat {
        self.parent@.len()
    }

    /// A lane of one of the places.
    pub open spec fn has(&self, l: LaneRef) -> bool {
        l.0 < self.size() && l.1 < MAX_WIDTH
    }

    /// The representative of the group that a lane is in.
    pub closed spec fn group(&self, l: LaneRef) -> LaneRef {
        (self.rep@)(l)
    }

    spec fn above(&self, l: LaneRef) -> LaneRef {
        self.parent@[l.0 as int]@[l.1 as int]
    }

    spec fn rank(&self, l: LaneRef) -> nat {
        (self.level@)(l)
    }

    pub closed spec fn wf(&self) -> bool {
        &&& forall|i: int| 0 <= i < self.parent@.len() ==> (#[trigger] self.parent@[i])@.len() == 32
        &&& forall|l: LaneRef| self.has(l) ==> #[trigger] self.wf_at(l)
    }

    spec fn wf_at(&self, l: LaneRef) -> bool {
        &&& self.has(self.above(l))
        &&& self.has(self.group(l))
        &&& self.above(self.group(l)) == self.group(l)
        &&& self.above(l) == l ==> self.group(l) == l
        &&& self.above(l) != l ==> self.group(self.above(l)) == self.group(l) && self.rank(l)
            < self.rank(self.above(l))
        &&& self.group(l) != l ==> self.rank(l) < self.rank(self.group(l))
        &&& self.rank(l) <= self.top@
    }

    /// A group's representative is in the group.
    pub proof fn groups_have_representatives(&self, l: LaneRef)
        requires
            self.wf(),
            self.has(l),
        ensures
            self.has(self.group(l)),
            self.group(self.group(l)) == self.group(l),
    {
        assert(self.wf_at(l));
        assert(self.wf_at(self.group(l)));
    }

    /// Every lane in a group of its own.
    pub fn new(n: usize) -> (r: Self)
        ensures
            r.wf(),
            r.size() == n,
            forall|l: LaneRef| #[trigger] r.has(l) ==> r.group(l) == l,
    {
        let mut parent: Vec<Vec<LaneRef>> = Vec::new();
        for i in 0..n
            invariant
                parent@.len() == i,
                forall|j: int| 0 <= j < i ==> (#[trigger] parent@[j])@.len() == 32,
                forall|j: int, b: int|
                    0 <= j < i && 0 <= b < 32 ==> #[trigger] parent@[j]@[b] == (j as usize, b as u8),
        {
            let mut row: Vec<LaneRef> = Vec::new();
            for b in 0..32u8
                invariant
                    row@.len() == b,
                    forall|c: int| 0 <= c < b ==> #[trigger] row@[c] == (i, c as u8),
            {
                row.push((i, b));
            }
            parent.push(row);
        }
        let r = Dsu {
            parent,
            rep: Ghost(|l: LaneRef| l),
            level: Ghost(|l: LaneRef| 0nat),
            top: Ghost(0nat),
        };
        proof {
            assert forall|l: LaneRef| r.has(l) implies #[trigger] r.wf_at(l) by {
                assert(r.parent@[l.0 as int]@[l.1 as int] == (l.0, l.1));
            }
        }
        r
    }

    /// The representative of a lane's group.
    pub fn find(&mut self, l: LaneRef) -> (root: LaneRef)
        requires
            old(self).wf(),
            old(self).has(l),
        ensures
            final(self).wf(),
            final(self).size() == old(self).size(),
            root == old(self).group(l),
            forall|x: LaneRef| #[trigger] final(self).group(x) == old(self).group(x),
    {
        let mut root: LaneRef = l;
        assert(self.wf_at(l));
        while differ(self.parent[root.0][root.1 as usize], root)
            invariant
                self.wf(),
                *self == *old(self),
                self.has(root),
                self.group(root) == self.group(l),
            decreases self.top@ - self.rank(root),
        {
            assert(self.wf_at(root));
            let up: LaneRef = self.parent[root.0][root.1 as usize];
            assert(self.wf_at(up));
            root = up;
        }
        assert(self.wf_at(root));
        let mut x: LaneRef = l;
        while differ(self.parent[x.0][x.1 as usize], root)
            invariant
                self.wf(),
                self.size() == old(self).size(),
                self.has(x),
                self.has(root),
                self.rep == old(self).rep,
                self.level == old(self).level,
                self.top == old(self).top,
                root == self.group(l),
                self.above(root) == root,
                self.group(x) == root,
            decreases self.top@ - self.rank(x),
        {
            let ghost before = *self;
            assert(self.wf_at(x));
            let up: LaneRef = self.parent[x.0][x.1 as usize];
            assert(self.wf_at(up));
            self.parent[x.0][x.1 as usize] = root;
            proof {
                assert(before.wf_at(root));
                assert(x != root);
                assert forall|y: LaneRef| self.has(y) implies #[trigger] self.wf_at(y) by {
                    assert(before.has(y));
                    assert(before.wf_at(y));
                    assert(self.above(y) == (if y == x {
                        root
                    } else {
                        before.above(y)
                    }));
                    let g = before.group(y);
                    assert(self.above(g) == (if g == x {
                        root
                    } else {
                        before.above(g)
                    }));
                }
            }
            x = up;
        }
        root
    }

    /// Makes two groups one.
    pub fn union(&mut self, a: LaneRef, b: LaneRef)
        requires
            old(self).wf(),
            old(self).has(a),
            old(self).has(b),
        ensures
            final(self).wf(),
            final(self).size() == old(self).size(),
            forall|x: LaneRef|
                old(self).has(x) ==> #[trigger] final(self).group(x) == (if old(self).group(x)
                    == old(self).group(a) {
                    old(self).group(b)
                } else {
                    old(self).group(x)
                }),
    {
        let ra: LaneRef = self.find(a);
        let ghost between = *self;
        let rb: LaneRef = self.find(b);
        proof {
            assert forall|x: LaneRef| #[trigger] self.group(x) == old(self).group(x) by {
                assert(between.group(x) == old(self).group(x));
            }
            assert(self.has(a) && self.has(b));
            self.groups_have_representatives(a);
            self.groups_have_representatives(b);
            assert(self.wf_at(a) && self.wf_at(b));
        }
        if differ(ra, rb) {
            let ghost before = *self;
            self.parent[ra.0][ra.1 as usize] = rb;
            proof {
                let rep = self.rep@;
                let level = self.level@;
                let high = if level(rb) <= level(ra) {
                    (level(ra) + 1) as nat
                } else {
                    level(rb)
                };
                self.rep@ = |x: LaneRef|
                    if rep(x) == ra {
                        rb
                    } else {
                        rep(x)
                    };
                self.level@ = |x: LaneRef|
                    if x == rb {
                        high
                    } else {
                        level(x)
                    };
                self.top@ = self.top@ + 1;
                assert(before.wf_at(ra) && before.wf_at(rb));
                assert forall|y: LaneRef| self.has(y) implies #[trigger] self.wf_at(y) by {
                    assert(before.has(y));
                    assert(before.wf_at(y));
                    assert(self.above(y) == (if y == ra {
                        rb
                    } else {
                        before.above(y)
                    }));
                    let g = before.group(y);
                    assert(before.wf_at(g));
                    assert(self.above(g) == (if g == ra {
                        rb
                    } else {
                        before.above(g)
                    }));
                    assert(self.above(rb) == rb);
                    assert(before.wf_at(before.above(y)));
                }
                assert forall|x: LaneRef| old(self).has(x) implies #[trigger] self.group(x) == (
                if old(self).group(x) == old(self).group(a) {
                    old(self).group(b)
                } else {
                    old(self).group(x)
                }) by {
                    assert(before.group(x) == old(self).group(x));
                }
            }
        } else {
            assert forall|x: LaneRef| old(self).has(x) implies #[trigger] self.group(x) == (
            if old(self).group(x) == old(self).group(a) {
                old(self).group(b)
            } else {
                old(self).group(x)
            }) by {
                assert(between.group(b) == old(self).group(b));
            }
        }
    }
}

/// The lane that a numbered place's bit is.
pub open spec fn lane_of(points: Seq<Point>, l: LaneRef) -> Lane {
    Lane { x: points[l.0 as int].0 as int, y: points[l.0 as int].1 as int, bit: l.1 as int }
}

/// The groups are the nets that these joints make.
pub open spec fn groups_are_nets(
    dsu: Dsu,
    points: Seq<Point>,
    links: Set<(Lane, Lane)>,
) -> bool {
    forall|a: LaneRef, b: LaneRef|
        dsu.has(a) && dsu.has(b) ==> (#[trigger] dsu.group(a) == #[trigger] dsu.group(b) <==> joined(
            links,
            lane_of(points, a),
            lane_of(points, b),
        ))
}

/// Without joints, every lane is a net.
pub(crate) proof fn nets_without_links(dsu: Dsu, points: Seq<Point>)
    requires
        dsu.size() == points.len(),
        points.no_duplicates(),
        forall|l: LaneRef| #[trigger] dsu.has(l) ==> dsu.group(l) == l,
    ensures
        groups_are_nets(dsu, points, Set::empty()),
{
    assert forall|a: LaneRef, b: LaneRef| dsu.has(a) && dsu.has(b) implies (#[trigger] dsu.group(a)
        == #[trigger] dsu.group(b) <==> joined(
        Set::empty(),
        lane_of(points, a),
        lane_of(points, b),
    )) by {
        no_links(lane_of(points, a), lane_of(points, b));
        if lane_of(points, a) == lane_of(points, b) {
            assert(points[a.0 as int] == points[b.0 as int]);
        }
    }
}

/// Joins two lanes.
pub(crate) fn join(
    dsu: &mut Dsu,
    a: LaneRef,
    b: LaneRef,
    Ghost(points): Ghost<Seq<Point>>,
    Ghost(links): Ghost<Set<(Lane, Lane)>>,
)
    requires
        old(dsu).wf(),
        old(dsu).has(a),
        old(dsu).has(b),
        groups_are_nets(*old(dsu), points, links),
    ensures
        final(dsu).wf(),
        final(dsu).size() == old(dsu).size(),
        groups_are_nets(
            *final(dsu),
            points,
            links.insert((lane_of(points, a), lane_of(points, b))),
        ),
{
    let ghost before = *dsu;
    dsu.union(a, b);
    proof {
        let more = links.insert((lane_of(points, a), lane_of(points, b)));
        assert forall|c: LaneRef, d: LaneRef| dsu.has(c) && dsu.has(d) implies (
        #[trigger] dsu.group(c) == #[trigger] dsu.group(d) <==> joined(
            more,
            lane_of(points, c),
            lane_of(points, d),
        )) by {
            assert(before.has(c) && before.has(d));
            joined_after(before, points, links, a, b, c, d);
        }
    }
}

proof fn joined_after(
    before: Dsu,
    points: Seq<Point>,
    links: Set<(Lane, Lane)>,
    a: LaneRef,
    b: LaneRef,
    c: LaneRef,
    d: LaneRef,
)
    requires
        before.has(a),
        before.has(b),
        before.has(c),
        before.has(d),
        groups_are_nets(before, points, links),
    ensures
        ({
            let after = |x: LaneRef|
                if before.group(x) == before.group(a) {
                    before.group(b)
                } else {
                    before.group(x)
                };
            after(c) == after(d)
        }) <==> joined(
            links.insert((lane_of(points, a), lane_of(points, b))),
            lane_of(points, c),
            lane_of(points, d),
        ),
{
    let u = lane_of(points, a);
    let v = lane_of(points, b);
    let x = lane_of(points, c);
    let y = lane_of(points, d);
    one_more_link(links, u, v, x, y);
    joined_symmetric(links, u, y);
    joined_symmetric(links, v, y);
    assert(before.group(c) == before.group(a) <==> joined(links, x, u));
    assert(before.group(c) == before.group(b) <==> joined(links, x, v));
    assert(before.group(d) == before.group(a) <==> joined(links, y, u));
    assert(before.group(d) == before.group(b) <==> joined(links, y, v));
    assert(before.group(c) == before.group(d) <==> joined(links, x, y));
}

/// Numbers places.
pub struct PointIndex {
    points: Vec<Point>,
    /// The numbers of the places whose coordinates end in the same bits.
    buckets: HashMap<u64, Vec<usize>>,
}

spec fn key(p: Point) -> u64 {
    ((p.0 as u32) as u64 * 0x1_0000_0000 + (p.1 as u32) as u64) as u64
}

impl View for PointIndex {
    type V = Seq<Point>;

    closed spec fn view(&self) -> Seq<Point> {
        self.points@
    }
}

impl PointIndex {
    pub closed spec fn wf(&self) -> bool {
        &&& self.points@.no_duplicates()
        &&& forall|n: int|
            0 <= n < self.points@.len() ==> #[trigger] self.is_filed(self.points@[n], n)
        &&& forall|k: u64, j: int|
            self.buckets@.contains_key(k) && 0 <= j < self.buckets@[k]@.len() ==> (
            #[trigger] self.buckets@[k]@[j]) < self.points@.len()
    }

    spec fn is_filed(&self, p: Point, n: int) -> bool {
        self.buckets@.contains_key(key(p)) && self.buckets@[key(p)]@.contains(n as usize)
    }

    /// A valid index holds every place once.
    pub proof fn places_are_distinct(&self)
        requires
            self.wf(),
        ensures
            self@.no_duplicates(),
    {
    }

    pub fn new() -> (r: Self)
        ensures
            r.wf(),
            r@ == Seq::<Point>::empty(),
    {
        broadcast use vstd::std_specs::hash::group_hash_axioms;

        let r = PointIndex { points: Vec::new(), buckets: HashMap::new() };
        assert(r.points@ =~= Seq::<Point>::empty());
        r
    }

    /// How many places there are.
    pub fn len(&self) -> (n: usize)
        ensures
            n == self@.len(),
    {
        self.points.len()
    }

    /// The number of a place, which gets the next one where it has none.
    pub fn number(&mut self, p: Point) -> (n: usize)
        requires
            old(self).wf(),
        ensures
            final(self).wf(),
            n < final(self)@.len(),
            final(self)@[n as int] == p,
            old(self)@.is_prefix_of(final(self)@),
    {
        broadcast use vstd::std_specs::hash::group_hash_axioms;

        let ghost before = *self;
        let k: u64 = (p.0 as u32) as u64 * 0x1_0000_0000 + (p.1 as u32) as u64;
        let mut list: Vec<usize> = match self.buckets.remove(&k) {
            Some(list) => list,
            None => Vec::new(),
        };
        let ghost filed = list@;
        let count: usize = list.len();
        let mut found: Option<usize> = None;
        for j in 0..count
            invariant
                count == list@.len(),
                filed == list@,
                self.points == before.points,
                forall|i: int| 0 <= i < filed.len() ==> #[trigger] filed[i] < self.points@.len(),
                match found {
                    Some(n) => n < self.points@.len() && self.points@[n as int] == p,
                    None => forall|i: int|
                        0 <= i < j ==> self.points@[(#[trigger] filed[i]) as int] != p,
                },
        {
            let n: usize = list[j];
            assert(filed[j as int] < self.points@.len());
            if self.points[n].0 == p.0 && self.points[n].1 == p.1 {
                found = Some(n);
            }
        }
        let n: usize = match found {
            Some(n) => n,
            None => {
                let n: usize = self.points.len();
                self.points.push(p);
                list.push(n);
                n
            },
        };
        let ghost now = list@;
        self.buckets.insert(k, list);
        proof {
            let pts = self.points@;
            let old_pts = before.points@;
            assert(old_pts.is_prefix_of(pts));
            if found is None {
                assert forall|i: int| 0 <= i < old_pts.len() implies old_pts[i] != p by {
                    if old_pts[i] == p {
                        assert(before.is_filed(old_pts[i], i));
                        let j = choose|j: int| 0 <= j < filed.len() && filed[j] == i as usize;
                        assert(old_pts[filed[j] as int] != p);
                    }
                }
                assert(pts =~= old_pts.push(p));
                assert(now =~= filed.push(n));
            } else {
                assert(pts == old_pts);
                assert(now == filed);
            }
            assert forall|i: int| 0 <= i < pts.len() implies #[trigger] self.is_filed(pts[i], i) by {
                if i < old_pts.len() {
                    assert(before.is_filed(old_pts[i], i));
                    if key(pts[i]) == k {
                        let j = choose|j: int| 0 <= j < filed.len() && filed[j] == i as usize;
                        assert(now[j] == i as usize);
                    }
                } else {
                    assert(now[filed.len() as int] == n);
                }
            }
            assert forall|q: u64, j: int|
                self.buckets@.contains_key(q) && 0 <= j < self.buckets@[q]@.len() implies (
            #[trigger] self.buckets@[q]@[j]) < pts.len() by {
                if q == k {
                    if j < filed.len() {
                        assert(now[j] == filed[j]);
                    }
                } else {
                    assert(before.buckets@[q]@[j] < old_pts.len());
                }
            }
        }
        n
    }
}

} // verus!
