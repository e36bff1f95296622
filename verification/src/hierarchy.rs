//! What a hierarchy of circuits means: which gates stand behind a bit of a nested circuit, and
//! which wires its connections stand for.
use vstd::prelude::*;
use crate::netlist;
use crate::netlist::{
    BitRef, CircuitTemplate, Elaborated, Layout, NetlistErrorView, Place, TemplateNode, Wire,
};

verus! {

/// How many gates a circuit has: one for each leaf, and for an instance those of its circuit.
pub open spec fn size_of(
    lib: Map<Seq<char>, CircuitTemplate>,
    name: Seq<char>,
    stack: Seq<Seq<char>>,
) -> nat
    decreases netlist::remaining(lib, stack), 0nat,
    when lib.dom().finite()
{
    if stack.contains(name) || !lib.contains_key(name) {
        0
    } else {
        proof {
            netlist::remaining_shrinks(lib, stack, name);
        }
        size_before(lib, lib[name], stack.push(name), lib[name].nodes@.len())
    }
}

/// How many gates the first `k` nodes of a circuit have.
pub open spec fn size_before(
    lib: Map<Seq<char>, CircuitTemplate>,
    t: CircuitTemplate,
    stack: Seq<Seq<char>>,
    k: nat,
) -> nat
    decreases netlist::remaining(lib, stack), k,
    when lib.dom().finite()
{
    if k == 0 {
        0
    } else {
        size_before(lib, t, stack, (k - 1) as nat) + match t.nodes@[k - 1] {
            TemplateNode::Subcircuit(sub) => size_of(lib, sub@, stack),
            _ => 1,
        }
    }
}

/// A gate's bit stands behind a bit that can be driven: it is that bit of a leaf, or it stands
/// behind one that an instance's circuit lists for that bit of that input port.
pub open spec fn is_fed(
    lib: Map<Seq<char>, CircuitTemplate>,
    t: CircuitTemplate,
    stack: Seq<Seq<char>>,
    base: nat,
    r: BitRef,
    x: BitRef,
) -> bool
    decreases netlist::remaining(lib, stack),
    when lib.dom().finite()
{
    let first = base + size_before(lib, t, stack, r.0 as nat);
    match t.nodes@[r.0 as int] {
        TemplateNode::Subcircuit(sub) => lib.contains_key(sub@) && !stack.contains(sub@) && {
            proof {
                netlist::remaining_shrinks(lib, stack, sub@);
            }
            let listed = lib[sub@].input_ports@[r.1 as int]@[r.2 as int]@;
            exists|k: int|
                0 <= k < listed.len() && is_fed(
                    lib,
                    lib[sub@],
                    stack.push(sub@),
                    first,
                    #[trigger] listed[k],
                    x,
                )
        },
        _ => x == (first as usize, r.1, r.2),
    }
}

/// A gate's bit stands behind a bit that can be read: it is that bit of a leaf, or it stands
/// behind one that an instance's circuit lists for that bit of that output port. An instance's
/// output ports are numbered after its input ports.
pub open spec fn is_driving(
    lib: Map<Seq<char>, CircuitTemplate>,
    t: CircuitTemplate,
    stack: Seq<Seq<char>>,
    base: nat,
    r: BitRef,
    x: BitRef,
) -> bool
    decreases netlist::remaining(lib, stack),
    when lib.dom().finite()
{
    let first = base + size_before(lib, t, stack, r.0 as nat);
    match t.nodes@[r.0 as int] {
        TemplateNode::Subcircuit(sub) => lib.contains_key(sub@) && !stack.contains(sub@) && {
            proof {
                netlist::remaining_shrinks(lib, stack, sub@);
            }
            let port = r.1 - lib[sub@].input_ports@.len();
            let listed = lib[sub@].output_ports@[port]@[r.2 as int]@;
            exists|k: int|
                0 <= k < listed.len() && is_driving(
                    lib,
                    lib[sub@],
                    stack.push(sub@),
                    first,
                    #[trigger] listed[k],
                    x,
                )
        },
        _ => x == (first as usize, r.1, r.2),
    }
}

/// Node `i` of a layout stands where the gates of the nodes before it end.
spec fn stands(
    lib: Map<Seq<char>, CircuitTemplate>,
    t: CircuitTemplate,
    stack: Seq<Seq<char>>,
    base: nat,
    l: Layout,
    i: int,
) -> bool {
    let before = size_before(lib, t, stack, i as nat);
    let first = base + before;
    match t.nodes@[i] {
        TemplateNode::Subcircuit(sub) => netlist::elaborate(lib, sub@, stack, first, false) matches Ok(
            e,
        ) && ({
            &&& l.places[i] == Place::Instance { inputs: e.inputs, outputs: e.outputs }
            &&& before + e.gates.len() <= l.gates.len()
            &&& l.gates.subrange(before as int, (before + e.gates.len()) as int) == e.gates
            &&& forall|w: Wire| #[trigger] e.wires.contains(w) ==> l.wires.contains(w)
        }),
        node => {
            &&& l.places[i] == Place::Leaf(first as usize)
            &&& before < l.gates.len()
            &&& l.gates[before as int] == node.initial()
        },
    }
}

/// A wire of a layout is one of an instance's.
spec fn is_inner(
    lib: Map<Seq<char>, CircuitTemplate>,
    t: CircuitTemplate,
    stack: Seq<Seq<char>>,
    base: nat,
    k: nat,
    w: Wire,
) -> bool {
    exists|i: int| 0 <= i < k && #[trigger] is_of_instance(lib, t, stack, base, i, w)
}

/// A wire is one of an instance's own, within the instance that is node `i`.
pub open spec fn is_of_instance(
    lib: Map<Seq<char>, CircuitTemplate>,
    t: CircuitTemplate,
    stack: Seq<Seq<char>>,
    base: nat,
    i: int,
    w: Wire,
) -> bool {
    t.nodes@[i] matches TemplateNode::Subcircuit(sub) && (netlist::elaborate(
        lib,
        sub@,
        stack,
        base + size_before(lib, t, stack, i as nat),
        false,
    ) matches Ok(e) && e.wires.contains(w))
}

proof fn circuits_have_their_size(
    lib: Map<Seq<char>, CircuitTemplate>,
    name: Seq<char>,
    stack: Seq<Seq<char>>,
    base: nat,
    is_entry: bool,
)
    requires
        lib.dom().finite(),
    ensures
        netlist::elaborate(lib, name, stack, base, is_entry) matches Ok(e) ==> e.gates.len()
            == size_of(lib, name, stack),
    decreases netlist::remaining(lib, stack), 0nat,
{
    if !stack.contains(name) && lib.contains_key(name) {
        netlist::remaining_shrinks(lib, stack, name);
        nodes_stand(lib, lib[name], stack.push(name), lib[name].nodes@.len(), base);
    }
}

proof fn contains_both(a: Seq<Wire>, b: Seq<Wire>, w: Wire)
    ensures
        (a + b).contains(w) <==> a.contains(w) || b.contains(w),
{
    if a.contains(w) {
        let i = choose|i: int| 0 <= i < a.len() && a[i] == w;
        assert((a + b)[i] == w);
    }
    if b.contains(w) {
        let i = choose|i: int| 0 <= i < b.len() && b[i] == w;
        assert((a + b)[a.len() + i] == w);
    }
    if (a + b).contains(w) {
        let i = choose|i: int| 0 <= i < (a + b).len() && (a + b)[i] == w;
        if i < a.len() {
            assert(a[i] == w);
        } else {
            assert(b[i - a.len()] == w);
        }
    }
}

proof fn nodes_stand(
    lib: Map<Seq<char>, CircuitTemplate>,
    t: CircuitTemplate,
    stack: Seq<Seq<char>>,
    k: nat,
    base: nat,
)
    requires
        lib.dom().finite(),
    ensures
        netlist::lay_out(lib, t, stack, k, base) matches Ok(l) ==> {
            &&& l.gates.len() == size_before(lib, t, stack, k)
            &&& l.places.len() == k
            &&& forall|i: int| 0 <= i < k ==> #[trigger] stands(lib, t, stack, base, l, i)
            &&& forall|w: Wire| #[trigger] l.wires.contains(w) ==> is_inner(lib, t, stack, base, k, w)
        },
    decreases netlist::remaining(lib, stack), k,
{
    if k > 0 {
        let n = (k - 1) as nat;
        nodes_stand(lib, t, stack, n, base);
        let now = netlist::lay_out(lib, t, stack, k, base);
        if now is Ok {
            let l = netlist::lay_out(lib, t, stack, n, base)->Ok_0;
            let after = now->Ok_0;
            let mid = base + l.gates.len();
            assert(l.gates.is_prefix_of(after.gates));
            if let TemplateNode::Subcircuit(sub) = t.nodes@[k - 1] {
                circuits_have_their_size(lib, sub@, stack, mid, false);
                let e = netlist::elaborate(lib, sub@, stack, mid, false)->Ok_0;
                assert forall|w: Wire| #[trigger]
                    after.wires.contains(w) <==> l.wires.contains(w) || e.wires.contains(w) by {
                    contains_both(l.wires, e.wires, w);
                }
                assert(after.gates.subrange(
                    l.gates.len() as int,
                    (l.gates.len() + e.gates.len()) as int,
                ) =~= e.gates);
            }
            assert forall|i: int| 0 <= i < k implies #[trigger] stands(
                lib,
                t,
                stack,
                base,
                after,
                i,
            ) by {
                if i < k - 1 {
                    assert(stands(lib, t, stack, base, l, i));
                    assert(after.places[i] == l.places[i]);
                    let before = size_before(lib, t, stack, i as nat);
                    if let TemplateNode::Subcircuit(sub) = t.nodes@[i] {
                        let e = netlist::elaborate(lib, sub@, stack, base + before, false)->Ok_0;
                        assert(after.gates.subrange(
                            before as int,
                            (before + e.gates.len()) as int,
                        ) =~= l.gates.subrange(before as int, (before + e.gates.len()) as int));
                    }
                }
            }
            assert forall|w: Wire| #[trigger] after.wires.contains(w) implies is_inner(
                lib,
                t,
                stack,
                base,
                k,
                w,
            ) by {
                if l.wires.contains(w) {
                    assert(is_inner(lib, t, stack, base, n, w));
                    let i = choose|i: int|
                        0 <= i < n && #[trigger] is_of_instance(lib, t, stack, base, i, w);
                    assert(is_of_instance(lib, t, stack, base, i, w));
                } else {
                    assert(is_of_instance(lib, t, stack, base, k - 1, w));
                }
            }
        }
    }
}

/// The bits behind one bit of a list.
spec fn behind(places: Seq<Place>, r: BitRef, sources: bool) -> Seq<BitRef> {
    if sources {
        netlist::sources_of(places, r)
    } else {
        netlist::targets_of(places, r)
    }
}

proof fn lists_resolve(places: Seq<Place>, refs: Seq<BitRef>, sources: bool, k: nat, x: BitRef)
    requires
        k <= refs.len(),
    ensures
        netlist::resolved(places, refs, sources, k).contains(x) <==> exists|j: int|
            0 <= j < k && behind(places, #[trigger] refs[j], sources).contains(x),
    decreases k,
{
    if k > 0 {
        let n = (k - 1) as nat;
        lists_resolve(places, refs, sources, n, x);
        let a = netlist::resolved(places, refs, sources, n);
        let b = behind(places, refs[k - 1], sources);
        let all = netlist::resolved(places, refs, sources, k);
        assert(all == a + b);
        if a.contains(x) {
            let i = choose|i: int| 0 <= i < a.len() && a[i] == x;
            assert(all[i] == x);
        }
        if b.contains(x) {
            let i = choose|i: int| 0 <= i < b.len() && b[i] == x;
            assert(all[a.len() + i] == x);
        }
        if all.contains(x) {
            let i = choose|i: int| 0 <= i < all.len() && all[i] == x;
            if i < a.len() {
                assert(a[i] == x);
            } else {
                assert(b[i - a.len()] == x);
            }
        }
    }
}

/// The instances of a circuit are ones that can be elaborated.
spec fn instances_ok(
    lib: Map<Seq<char>, CircuitTemplate>,
    t: CircuitTemplate,
    stack: Seq<Seq<char>>,
) -> bool {
    forall|i: int|
        0 <= i < t.nodes@.len() ==> (#[trigger] t.nodes@[i] matches TemplateNode::Subcircuit(sub)
            ==> netlist::can_elaborate(lib, sub@, stack, false))
}

proof fn targets_are_fed(
    lib: Map<Seq<char>, CircuitTemplate>,
    t: CircuitTemplate,
    stack: Seq<Seq<char>>,
    base: nat,
    r: BitRef,
    x: BitRef,
)
    requires
        lib.dom().finite(),
        instances_ok(lib, t, stack),
        netlist::lay_out(lib, t, stack, t.nodes@.len(), base) is Ok,
        netlist::writable(lib, t.nodes@, r),
    ensures
        netlist::targets_of(
            netlist::lay_out(lib, t, stack, t.nodes@.len(), base)->Ok_0.places,
            r,
        ).contains(x) <==> is_fed(lib, t, stack, base, r, x),
    decreases netlist::remaining(lib, stack),
{
    let l = netlist::lay_out(lib, t, stack, t.nodes@.len(), base)->Ok_0;
    nodes_stand(lib, t, stack, t.nodes@.len(), base);
    assert(stands(lib, t, stack, base, l, r.0 as int));
    let first = base + size_before(lib, t, stack, r.0 as nat);
    if let TemplateNode::Subcircuit(sub) = t.nodes@[r.0 as int] {
        let u = lib[sub@];
        netlist::remaining_shrinks(lib, stack, sub@);
        let within = stack.push(sub@);
        let inner = netlist::lay_out(lib, u, within, u.nodes@.len(), first)->Ok_0;
        let listed = u.input_ports@[r.1 as int]@[r.2 as int]@;
        lists_resolve(inner.places, listed, false, listed.len(), x);
        assert forall|j: int| 0 <= j < listed.len() implies (behind(
            inner.places,
            #[trigger] listed[j],
            false,
        ).contains(x) <==> is_fed(lib, u, within, first, listed[j], x)) by {
            assert(listed[j] == u.input_ports@[r.1 as int]@[r.2 as int]@[j]);
            targets_are_fed(lib, u, within, first, listed[j], x);
        }
    } else {
        let only = (first as usize, r.1, r.2);
        assert(seq![only][0] == only);
    }
}

proof fn sources_are_driving(
    lib: Map<Seq<char>, CircuitTemplate>,
    t: CircuitTemplate,
    stack: Seq<Seq<char>>,
    base: nat,
    r: BitRef,
    x: BitRef,
)
    requires
        lib.dom().finite(),
        instances_ok(lib, t, stack),
        netlist::lay_out(lib, t, stack, t.nodes@.len(), base) is Ok,
        netlist::readable(lib, t.nodes@, r),
    ensures
        netlist::sources_of(
            netlist::lay_out(lib, t, stack, t.nodes@.len(), base)->Ok_0.places,
            r,
        ).contains(x) <==> is_driving(lib, t, stack, base, r, x),
    decreases netlist::remaining(lib, stack),
{
    let l = netlist::lay_out(lib, t, stack, t.nodes@.len(), base)->Ok_0;
    nodes_stand(lib, t, stack, t.nodes@.len(), base);
    assert(stands(lib, t, stack, base, l, r.0 as int));
    let first = base + size_before(lib, t, stack, r.0 as nat);
    if let TemplateNode::Subcircuit(sub) = t.nodes@[r.0 as int] {
        let u = lib[sub@];
        netlist::remaining_shrinks(lib, stack, sub@);
        let within = stack.push(sub@);
        let inner = netlist::lay_out(lib, u, within, u.nodes@.len(), first)->Ok_0;
        let port = r.1 - u.input_ports@.len();
        let listed = u.output_ports@[port]@[r.2 as int]@;
        lists_resolve(inner.places, listed, true, listed.len(), x);
        assert forall|j: int| 0 <= j < listed.len() implies (behind(
            inner.places,
            #[trigger] listed[j],
            true,
        ).contains(x) <==> is_driving(lib, u, within, first, listed[j], x)) by {
            assert(listed[j] == u.output_ports@[port]@[r.2 as int]@[j]);
            sources_are_driving(lib, u, within, first, listed[j], x);
        }
    } else {
        let only = (first as usize, r.1, r.2);
        assert(seq![only][0] == only);
    }
}

proof fn pairs_are_all(srcs: Seq<BitRef>, dsts: Seq<BitRef>, k: nat, w: Wire)
    requires
        k <= srcs.len(),
    ensures
        netlist::all_pairs(srcs, dsts, k).contains(w) <==> srcs.take(k as int).contains(w.0)
            && dsts.contains(w.1),
    decreases k,
{
    if k > 0 {
        let n = (k - 1) as nat;
        pairs_are_all(srcs, dsts, n, w);
        let a = netlist::all_pairs(srcs, dsts, n);
        let b: Seq<Wire> = Seq::new(dsts.len(), |j: int| (srcs[k - 1], dsts[j]));
        contains_both(a, b, w);
        assert(netlist::all_pairs(srcs, dsts, k) == a + b);
        assert(srcs.take(k as int) =~= srcs.take(n as int).push(srcs[k - 1]));
        if b.contains(w) {
            let j = choose|j: int| 0 <= j < b.len() && b[j] == w;
            assert(dsts[j] == w.1);
            assert(srcs.take(k as int)[k - 1] == w.0);
        }
        if srcs.take(n as int).contains(w.0) {
            let i = choose|i: int| 0 <= i < n && srcs.take(n as int)[i] == w.0;
            assert(srcs.take(k as int)[i] == w.0);
        }
        if srcs.take(k as int).contains(w.0) && dsts.contains(w.1) && !srcs.take(n as int).contains(
            w.0,
        ) {
            let i = choose|i: int| 0 <= i < k && srcs.take(k as int)[i] == w.0;
            if i < n {
                assert(srcs.take(n as int)[i] == w.0);
            }
            let j = choose|j: int| 0 <= j < dsts.len() && dsts[j] == w.1;
            assert(b[j] == w);
        }
    } else {
        assert(srcs.take(0).len() == 0);
    }
}

/// A connection stands for a wire: its source is behind one end and its target behind the other.
/// Within an instance, a connection of a node that only declares a port stands for none.
pub open spec fn is_of_connection(
    lib: Map<Seq<char>, CircuitTemplate>,
    t: CircuitTemplate,
    stack: Seq<Seq<char>>,
    base: nat,
    is_entry: bool,
    c: Wire,
    w: Wire,
) -> bool {
    &&& is_entry || !(t.port_marker_nodes@.contains(c.0.0) || t.port_marker_nodes@.contains(c.1.0))
    &&& is_driving(lib, t, stack, base, c.0, w.0)
    &&& is_fed(lib, t, stack, base, c.1, w.1)
}

proof fn connections_are_wires(
    lib: Map<Seq<char>, CircuitTemplate>,
    t: CircuitTemplate,
    stack: Seq<Seq<char>>,
    base: nat,
    is_entry: bool,
    k: nat,
    w: Wire,
)
    requires
        lib.dom().finite(),
        instances_ok(lib, t, stack),
        netlist::template_ok(lib, t, is_entry),
        netlist::lay_out(lib, t, stack, t.nodes@.len(), base) is Ok,
        k <= t.connections@.len(),
    ensures
        netlist::connection_wires(
            t,
            netlist::lay_out(lib, t, stack, t.nodes@.len(), base)->Ok_0.places,
            is_entry,
            k,
        ).contains(w) <==> exists|j: int|
            0 <= j < k && is_of_connection(
                lib,
                t,
                stack,
                base,
                is_entry,
                #[trigger] t.connections@[j],
                w,
            ),
    decreases k,
{
    if k > 0 {
        let n = (k - 1) as nat;
        connections_are_wires(lib, t, stack, base, is_entry, n, w);
        let places = netlist::lay_out(lib, t, stack, t.nodes@.len(), base)->Ok_0.places;
        let c = t.connections@[k - 1];
        if !netlist::unwired(t, is_entry, c) {
            let srcs = netlist::sources_of(places, c.0);
            let dsts = netlist::targets_of(places, c.1);
            let a = netlist::connection_wires(t, places, is_entry, n);
            sources_are_driving(lib, t, stack, base, c.0, w.0);
            targets_are_fed(lib, t, stack, base, c.1, w.1);
            pairs_are_all(srcs, dsts, srcs.len(), w);
            assert(srcs.take(srcs.len() as int) =~= srcs);
            contains_both(a, netlist::all_pairs(srcs, dsts, srcs.len()), w);
        }
    }
}

/// The wires of an elaborated circuit are those within its instances, as each of them is
/// elaborated by itself, and one from every gate bit behind the source of a connection to every
/// gate bit behind its target. There are no others.
pub proof fn wires_are_connections(
    lib: Map<Seq<char>, CircuitTemplate>,
    name: Seq<char>,
    stack: Seq<Seq<char>>,
    base: nat,
    is_entry: bool,
    w: Wire,
)
    requires
        lib.dom().finite(),
        netlist::can_elaborate(lib, name, stack, is_entry),
    ensures
        netlist::elaborate(lib, name, stack, base, is_entry) matches Ok(e) ==> {
            let t = lib[name];
            let within = stack.push(name);
            e.wires.contains(w) <==> {
                ||| exists|i: int|
                    0 <= i < t.nodes@.len() && #[trigger] is_of_instance(
                        lib,
                        t,
                        within,
                        base,
                        i,
                        w,
                    )
                ||| exists|j: int|
                    0 <= j < t.connections@.len() && is_of_connection(
                        lib,
                        t,
                        within,
                        base,
                        is_entry,
                        #[trigger] t.connections@[j],
                        w,
                    )
            }
        },
{
    if netlist::elaborate(lib, name, stack, base, is_entry) is Ok {
        let t = lib[name];
        let within = stack.push(name);
        let n = t.nodes@.len();
        let l = netlist::lay_out(lib, t, within, n, base)->Ok_0;
        nodes_stand(lib, t, within, n, base);
        connections_are_wires(lib, t, within, base, is_entry, t.connections@.len(), w);
        contains_both(
            l.wires,
            netlist::connection_wires(t, l.places, is_entry, t.connections@.len()),
            w,
        );
        if l.wires.contains(w) {
            assert(is_inner(lib, t, within, base, n, w));
            let i = choose|i: int|
                0 <= i < n && #[trigger] is_of_instance(lib, t, within, base, i, w);
            assert(is_of_instance(lib, t, within, base, i, w));
        }
        assert forall|i: int|
            0 <= i < n && #[trigger] is_of_instance(lib, t, within, base, i, w) implies l.wires.contains(
        w) by {
            assert(stands(lib, t, within, base, l, i));
        }
    }
}

/// A connection from a source to bit `b` of input port `p` of an instance puts a wire from every
/// gate bit of that source to every bit that the instance, elaborated by itself where its gates
/// stand, has behind bit `b` of its input port `p`; a connection from bit `b` of its output port
/// `p` puts one from every bit that it has behind that. These are the bits behind those that its
/// circuit lists for that port and bit, and no others.
pub proof fn instances_are_wired_through_their_ports(
    lib: Map<Seq<char>, CircuitTemplate>,
    name: Seq<char>,
    stack: Seq<Seq<char>>,
    base: nat,
    is_entry: bool,
    i: int,
    p: int,
    b: int,
    x: BitRef,
)
    requires
        lib.dom().finite(),
        netlist::can_elaborate(lib, name, stack, is_entry),
        netlist::elaborate(lib, name, stack, base, is_entry) is Ok,
        0 <= i < lib[name].nodes@.len(),
        i <= usize::MAX,
        lib[name].nodes@[i] is Subcircuit,
        0 <= b <= u8::MAX,
    ensures
        ({
            let t = lib[name];
            let within = stack.push(name);
            let first = base + size_before(lib, t, within, i as nat);
            let sub = lib[name].nodes@[i]->Subcircuit_0@;
            let u = lib[sub];
            netlist::elaborate(lib, sub, within, first, false) matches Ok(inner) && ({
                &&& inner.inputs.len() == u.input_ports@.len()
                &&& inner.outputs.len() == u.output_ports@.len()
                &&& 0 <= p < u.input_ports@.len() && b < u.input_ports@[p]@.len() && p
                    <= usize::MAX ==> {
                    &&& inner.inputs[p].len() == u.input_ports@[p]@.len()
                    &&& is_fed(lib, t, within, base, (i as usize, p as usize, b as u8), x)
                        <==> inner.inputs[p][b].contains(x)
                    &&& inner.inputs[p][b].contains(x) <==> exists|k: int|
                        0 <= k < u.input_ports@[p]@[b]@.len() && is_fed(
                            lib,
                            u,
                            within.push(sub),
                            first,
                            #[trigger] u.input_ports@[p]@[b]@[k],
                            x,
                        )
                }
                &&& 0 <= p < u.output_ports@.len() && b < u.output_ports@[p]@.len()
                    && u.input_ports@.len() + p <= usize::MAX ==> {
                    &&& inner.outputs[p].len() == u.output_ports@[p]@.len()
                    &&& is_driving(
                        lib,
                        t,
                        within,
                        base,
                        (i as usize, (u.input_ports@.len() + p) as usize, b as u8),
                        x,
                    ) <==> inner.outputs[p][b].contains(x)
                    &&& inner.outputs[p][b].contains(x) <==> exists|k: int|
                        0 <= k < u.output_ports@[p]@[b]@.len() && is_driving(
                            lib,
                            u,
                            within.push(sub),
                            first,
                            #[trigger] u.output_ports@[p]@[b]@[k],
                            x,
                        )
                }
            })
        }),
{
    let t = lib[name];
    let within = stack.push(name);
    let n = t.nodes@.len();
    let l = netlist::lay_out(lib, t, within, n, base)->Ok_0;
    let first = base + size_before(lib, t, within, i as nat);
    let sub = lib[name].nodes@[i]->Subcircuit_0@;
    let u = lib[sub];
    netlist::remaining_shrinks(lib, stack, name);
    nodes_stand(lib, t, within, n, base);
    assert(stands(lib, t, within, base, l, i));
    let inner = netlist::elaborate(lib, sub, within, first, false)->Ok_0;
    if 0 <= p < u.input_ports@.len() && b < u.input_ports@[p]@.len() && p <= usize::MAX {
        let r: BitRef = (i as usize, p as usize, b as u8);
        assert(netlist::writable(lib, t.nodes@, r));
        targets_are_fed(lib, t, within, base, r, x);
    }
    if 0 <= p < u.output_ports@.len() && b < u.output_ports@[p]@.len() && u.input_ports@.len() + p
        <= usize::MAX {
        let r: BitRef = (i as usize, (u.input_ports@.len() + p) as usize, b as u8);
        assert(netlist::readable(lib, t.nodes@, r));
        sources_are_driving(lib, t, within, base, r, x);
    }
}

/// The bits behind a circuit's own ports are those behind the bits that it lists for them.
pub proof fn ports_lead_to_listed_bits(
    lib: Map<Seq<char>, CircuitTemplate>,
    name: Seq<char>,
    stack: Seq<Seq<char>>,
    base: nat,
    is_entry: bool,
    p: int,
    b: int,
    x: BitRef,
)
    requires
        lib.dom().finite(),
        netlist::can_elaborate(lib, name, stack, is_entry),
        netlist::elaborate(lib, name, stack, base, is_entry) is Ok,
    ensures
        ({
            let t = lib[name];
            let within = stack.push(name);
            let e = netlist::elaborate(lib, name, stack, base, is_entry)->Ok_0;
            &&& e.inputs.len() == t.input_ports@.len()
            &&& e.outputs.len() == t.output_ports@.len()
            &&& 0 <= p < t.input_ports@.len() ==> e.inputs[p].len() == t.input_ports@[p]@.len()
            &&& 0 <= p < t.output_ports@.len() ==> e.outputs[p].len() == t.output_ports@[p]@.len()
            &&& 0 <= p < t.input_ports@.len() && 0 <= b < t.input_ports@[p]@.len() ==> (
            e.inputs[p][b].contains(x) <==> exists|k: int|
                0 <= k < t.input_ports@[p]@[b]@.len() && is_fed(
                    lib,
                    t,
                    within,
                    base,
                    #[trigger] t.input_ports@[p]@[b]@[k],
                    x,
                ))
            &&& 0 <= p < t.output_ports@.len() && 0 <= b < t.output_ports@[p]@.len() ==> (
            e.outputs[p][b].contains(x) <==> exists|k: int|
                0 <= k < t.output_ports@[p]@[b]@.len() && is_driving(
                    lib,
                    t,
                    within,
                    base,
                    #[trigger] t.output_ports@[p]@[b]@[k],
                    x,
                ))
        }),
{
    let t = lib[name];
    let within = stack.push(name);
    let l = netlist::lay_out(lib, t, within, t.nodes@.len(), base)->Ok_0;
    if 0 <= p < t.input_ports@.len() && 0 <= b < t.input_ports@[p]@.len() {
        let listed = t.input_ports@[p]@[b]@;
        lists_resolve(l.places, listed, false, listed.len(), x);
        assert forall|k: int| 0 <= k < listed.len() implies (behind(
            l.places,
            #[trigger] listed[k],
            false,
        ).contains(x) <==> is_fed(lib, t, within, base, listed[k], x)) by {
            assert(listed[k] == t.input_ports@[p]@[b]@[k]);
            targets_are_fed(lib, t, within, base, listed[k], x);
        }
    }
    if 0 <= p < t.output_ports@.len() && 0 <= b < t.output_ports@[p]@.len() {
        let listed = t.output_ports@[p]@[b]@;
        lists_resolve(l.places, listed, true, listed.len(), x);
        assert forall|k: int| 0 <= k < listed.len() implies (behind(
            l.places,
            #[trigger] listed[k],
            true,
        ).contains(x) <==> is_driving(lib, t, within, base, listed[k], x)) by {
            assert(listed[k] == t.output_ports@[p]@[b]@[k]);
            sources_are_driving(lib, t, within, base, listed[k], x);
        }
    }
}

/// The gates of a circuit stand in the order of its nodes: a leaf is the one gate after those of
/// the nodes before it, in its initial state, and an instance is there all the gates of its
/// circuit. A leaf of the entry circuit is found under its node's number.
pub proof fn gates_stand_in_order(
    lib: Map<Seq<char>, CircuitTemplate>,
    name: Seq<char>,
    stack: Seq<Seq<char>>,
    base: nat,
    is_entry: bool,
    i: int,
)
    requires
        lib.dom().finite(),
        netlist::elaborate(lib, name, stack, base, is_entry) is Ok,
        0 <= i < lib[name].nodes@.len(),
        i <= usize::MAX,
    ensures
        ({
            let t = lib[name];
            let within = stack.push(name);
            let e = netlist::elaborate(lib, name, stack, base, is_entry)->Ok_0;
            let before = size_before(lib, t, within, i as nat);
            &&& e.gates.len() == size_before(lib, t, within, t.nodes@.len())
            &&& e.places.len() == t.nodes@.len()
            &&& match t.nodes@[i] {
                TemplateNode::Subcircuit(sub) => {
                    &&& !netlist::leaf_map(e.places).contains_key(i as usize)
                    &&& netlist::elaborate(lib, sub@, within, base + before, false) matches Ok(inner)
                        && before + inner.gates.len() <= e.gates.len() && e.gates.subrange(
                        before as int,
                        (before + inner.gates.len()) as int,
                    ) == inner.gates
                },
                node => {
                    &&& before < e.gates.len()
                    &&& e.gates[before as int] == node.initial()
                    &&& netlist::leaf_map(e.places).contains_key(i as usize)
                    &&& netlist::leaf_map(e.places)[i as usize] == (base + before) as usize
                },
            }
        }),
{
    let t = lib[name];
    let within = stack.push(name);
    let l = netlist::lay_out(lib, t, within, t.nodes@.len(), base)->Ok_0;
    nodes_stand(lib, t, within, t.nodes@.len(), base);
    assert(stands(lib, t, within, base, l, i));
}

/// Elaboration fails for a circuit within itself, with the chain that leads back to it, for one
/// that is not in the library, with its name, and as the first of its instances does that fails.
/// It succeeds where none does.
pub proof fn elaboration_fails_as_its_first_instance(
    lib: Map<Seq<char>, CircuitTemplate>,
    name: Seq<char>,
    stack: Seq<Seq<char>>,
    base: nat,
    is_entry: bool,
    i: int,
)
    requires
        lib.dom().finite(),
    ensures
        ({
            let r = netlist::elaborate(lib, name, stack, base, is_entry);
            let within = stack.push(name);
            let t = lib[name];
            &&& stack.contains(name) ==> r == Err::<Elaborated, NetlistErrorView>(
                NetlistErrorView::CircularSubcircuit(stack.push(name)),
            )
            &&& !stack.contains(name) && !lib.contains_key(name) ==> r == Err::<
                Elaborated,
                NetlistErrorView,
            >(NetlistErrorView::UnknownSubcircuit(name))
            &&& !stack.contains(name) && lib.contains_key(name) && 0 <= i < t.nodes@.len()
                && fails_at(lib, t, within, base, i) is Some && (forall|j: int|
                0 <= j < i ==> (#[trigger] fails_at(lib, t, within, base, j)) is None) ==> r
                == Err::<Elaborated, NetlistErrorView>(fails_at(lib, t, within, base, i)->0)
            &&& !stack.contains(name) && lib.contains_key(name) && (forall|j: int|
                0 <= j < t.nodes@.len() ==> (#[trigger] fails_at(lib, t, within, base, j)) is None)
                ==> r is Ok
        }),
{
    if !stack.contains(name) && lib.contains_key(name) {
        let t = lib[name];
        let within = stack.push(name);
        let n = t.nodes@.len();
        if 0 <= i < n && fails_at(lib, t, within, base, i) is Some && (forall|j: int|
            0 <= j < i ==> (#[trigger] fails_at(lib, t, within, base, j)) is None) {
            layouts_succeed(lib, t, within, base, i as nat);
            nodes_stand(lib, t, within, i as nat, base);
            layouts_keep_failing(lib, t, within, base, (i + 1) as nat, n);
        }
        if forall|j: int|
            0 <= j < n ==> (#[trigger] fails_at(lib, t, within, base, j)) is None {
            layouts_succeed(lib, t, within, base, n);
        }
    }
}

/// How the instance that is node `i` fails, if it is one and does.
pub open spec fn fails_at(
    lib: Map<Seq<char>, CircuitTemplate>,
    t: CircuitTemplate,
    stack: Seq<Seq<char>>,
    base: nat,
    i: int,
) -> Option<NetlistErrorView> {
    match t.nodes@[i] {
        TemplateNode::Subcircuit(sub) => match netlist::elaborate(
            lib,
            sub@,
            stack,
            base + size_before(lib, t, stack, i as nat),
            false,
        ) {
            Err(e) => Some(e),
            Ok(_) => None,
        },
        _ => None,
    }
}

proof fn layouts_succeed(
    lib: Map<Seq<char>, CircuitTemplate>,
    t: CircuitTemplate,
    stack: Seq<Seq<char>>,
    base: nat,
    k: nat,
)
    requires
        lib.dom().finite(),
        forall|j: int| 0 <= j < k ==> (#[trigger] fails_at(lib, t, stack, base, j)) is None,
    ensures
        netlist::lay_out(lib, t, stack, k, base) is Ok,
    decreases k,
{
    if k > 0 {
        layouts_succeed(lib, t, stack, base, (k - 1) as nat);
        nodes_stand(lib, t, stack, (k - 1) as nat, base);
        assert(fails_at(lib, t, stack, base, k - 1) is None);
    }
}

proof fn layouts_keep_failing(
    lib: Map<Seq<char>, CircuitTemplate>,
    t: CircuitTemplate,
    stack: Seq<Seq<char>>,
    base: nat,
    k: nat,
    n: nat,
)
    requires
        lib.dom().finite(),
        k <= n,
        netlist::lay_out(lib, t, stack, k, base) is Err,
    ensures
        netlist::lay_out(lib, t, stack, n, base) == netlist::lay_out(lib, t, stack, k, base),
    decreases n,
{
    if k < n {
        layouts_keep_failing(lib, t, stack, base, k, (n - 1) as nat);
    }
}

} // verus!
