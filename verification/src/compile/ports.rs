//! The ports of a circuit: its input and output pins, in the order of their ids.
use vstd::prelude::*;
use crate::compile::attrs;
use crate::compile::attrs::width_attr;
use crate::file_format::{Circuit, ComponentInstance};
use crate::name_map::NameMap;
use crate::text;

verus! {

/// A text comes before another: character by character, and a beginning before the whole.
pub open spec fn before(a: Seq<char>, b: Seq<char>) -> bool
    decreases a.len(),
{
    if b.len() == 0 {
        false
    } else if a.len() == 0 {
        true
    } else if a[0] != b[0] {
        a[0] < b[0]
    } else {
        before(a.drop_first(), b.drop_first())
    }
}

/// What comes before what comes before, comes before.
pub proof fn before_transitive(a: Seq<char>, b: Seq<char>, c: Seq<char>)
    requires
        before(a, b),
        before(b, c),
    ensures
        before(a, c),
    decreases a.len(),
{
    if a.len() > 0 && a[0] == b[0] && b[0] == c[0] {
        before_transitive(a.drop_first(), b.drop_first(), c.drop_first());
    }
}

/// Of two different texts exactly one comes before the other.
pub proof fn before_total(a: Seq<char>, b: Seq<char>)
    ensures
        a == b ==> !before(a, b),
        a != b ==> before(a, b) != before(b, a),
    decreases a.len(),
{
    if a.len() > 0 && b.len() > 0 && a[0] == b[0] {
        before_total(a.drop_first(), b.drop_first());
        if a.drop_first() == b.drop_first() {
            assert(a =~= seq![a[0]] + a.drop_first());
            assert(b =~= seq![b[0]] + b.drop_first());
        }
    }
    if a.len() == 0 && b.len() == 0 {
        assert(a =~= b);
    }
}

fn is_before(a: &str, b: &str) -> (r: bool)
    ensures
        r == before(a@, b@),
{
    let x: Vec<char> = text::chars_of(a);
    let y: Vec<char> = text::chars_of(b);
    let mut i: usize = 0;
    proof {
        assert(x@.skip(0) =~= x@);
        assert(y@.skip(0) =~= y@);
    }
    while i < x.len() && i < y.len()
        invariant
            x@ == a@,
            y@ == b@,
            i <= x@.len(),
            i <= y@.len(),
            before(a@, b@) == before(x@.skip(i as int), y@.skip(i as int)),
        decreases x@.len() - i,
    {
        proof {
            assert(x@.skip(i as int).drop_first() =~= x@.skip(i + 1));
            assert(y@.skip(i as int).drop_first() =~= y@.skip(i + 1));
        }
        if x[i] != y[i] {
            return x[i] < y[i];
        }
        i = i + 1;
    }
    x.len() <= i && i < y.len()
}

/// Where in the list, from `from` on, the component belongs: in front of the first one whose id
/// comes after its own.
pub open spec fn slot(comps: Seq<ComponentInstance>, order: Seq<int>, c: int, from: nat) -> nat
    decreases order.len() - from,
{
    if from >= order.len() {
        order.len()
    } else if before(comps[c].id@, comps[order[from as int]].id@) {
        from
    } else {
        slot(comps, order, c, from + 1)
    }
}

/// Which of the first `k` components are of a type, in the order of their ids.
pub open spec fn port_order(comps: Seq<ComponentInstance>, type_: Seq<char>, k: nat) -> Seq<int>
    decreases k,
{
    if k == 0 {
        Seq::empty()
    } else {
        let order = port_order(comps, type_, (k - 1) as nat);
        if comps[k - 1].type_@ == type_ {
            order.insert(slot(comps, order, k - 1, 0) as int, k - 1)
        } else {
            order
        }
    }
}

proof fn slot_fits(comps: Seq<ComponentInstance>, order: Seq<int>, c: int, from: nat)
    requires
        from <= order.len(),
    ensures
        from <= slot(comps, order, c, from) <= order.len(),
        forall|i: int|
            from <= i < slot(comps, order, c, from) ==> !before(
                comps[c].id@,
                comps[#[trigger] order[i]].id@,
            ),
        slot(comps, order, c, from) < order.len() ==> before(
            comps[c].id@,
            comps[order[slot(comps, order, c, from) as int]].id@,
        ),
    decreases order.len() - from,
{
    if from < order.len() && !before(comps[c].id@, comps[order[from as int]].id@) {
        slot_fits(comps, order, c, from + 1);
    }
}

/// The list holds exactly the components of the type.
pub proof fn ports_are_of_the_type(
    comps: Seq<ComponentInstance>,
    type_: Seq<char>,
    k: nat,
    c: int,
)
    requires
        k <= comps.len(),
    ensures
        port_order(comps, type_, k).contains(c) <==> 0 <= c < k && comps[c].type_@ == type_,
        port_order(comps, type_, k).len() <= k,
    decreases k,
{
    let order = port_order(comps, type_, k);
    if k > 0 {
        let prev = port_order(comps, type_, (k - 1) as nat);
        ports_are_of_the_type(comps, type_, (k - 1) as nat, c);
        if comps[k - 1].type_@ == type_ {
            let p = slot(comps, prev, k - 1, 0) as int;
            slot_fits(comps, prev, k - 1, 0);
            assert(order[p] == k - 1);
            if prev.contains(c) {
                let i = choose|i: int| 0 <= i < prev.len() && prev[i] == c;
                if i < p {
                    assert(order[i] == c);
                } else {
                    assert(order[i + 1] == c);
                }
            }
            if order.contains(c) && c != k - 1 {
                let i = choose|i: int| 0 <= i < order.len() && order[i] == c;
                if i < p {
                    assert(prev[i] == c);
                } else {
                    assert(prev[i - 1] == c);
                }
            }
        }
    }
}

/// No port's id comes before the id of a port in front of it.
pub proof fn ports_are_in_order(
    comps: Seq<ComponentInstance>,
    type_: Seq<char>,
    k: nat,
    i: int,
    j: int,
)
    requires
        k <= comps.len(),
        0 <= i < j < port_order(comps, type_, k).len(),
    ensures
        !before(
            comps[port_order(comps, type_, k)[j]].id@,
            comps[port_order(comps, type_, k)[i]].id@,
        ),
        port_order(comps, type_, k)[i] != port_order(comps, type_, k)[j],
    decreases k,
{
    if k > 0 {
        let prev = port_order(comps, type_, (k - 1) as nat);
        if comps[k - 1].type_@ != type_ {
            ports_are_in_order(comps, type_, (k - 1) as nat, i, j);
        } else {
            let p = slot(comps, prev, k - 1, 0) as int;
            slot_fits(comps, prev, k - 1, 0);
            let a = if i < p {
                i
            } else {
                i - 1
            };
            let b = if j < p {
                j
            } else {
                j - 1
            };
            let id = comps[k - 1].id@;
            if i != p && j != p {
                ports_are_in_order(comps, type_, (k - 1) as nat, a, b);
            } else if j == p {
                assert(!before(id, comps[prev[i]].id@));
                assert(prev.contains(prev[i]));
                ports_are_of_the_type(comps, type_, (k - 1) as nat, prev[i]);
            } else {
                assert(prev.contains(prev[b]));
                ports_are_of_the_type(comps, type_, (k - 1) as nat, prev[b]);
                let e = comps[prev[b]].id@;
                let f = comps[prev[p]].id@;
                if b > p {
                    ports_are_in_order(comps, type_, (k - 1) as nat, p, b);
                }
                if before(e, id) {
                    before_transitive(e, id, f);
                    before_total(e, f);
                }
            }
        }
    }
}

proof fn ports_share_components(
    comps: Seq<ComponentInstance>,
    a: Seq<char>,
    b: Seq<char>,
    k: nat,
)
    requires
        a != b,
        k <= comps.len(),
    ensures
        port_order(comps, a, k).len() + port_order(comps, b, k).len() <= k,
    decreases k,
{
    if k > 0 {
        ports_share_components(comps, a, b, (k - 1) as nat);
        slot_fits(comps, port_order(comps, a, (k - 1) as nat), k - 1, 0);
        slot_fits(comps, port_order(comps, b, (k - 1) as nat), k - 1, 0);
    }
}

/// The contents of a list of numbers.
pub open spec fn numbers(list: Seq<usize>) -> Seq<int> {
    Seq::new(list.len(), |i: int| list[i] as int)
}

/// The components of a type, in the order of their ids.
pub(crate) fn port_components(circuit: &Circuit, type_: &str) -> (r: Vec<usize>)
    ensures
        numbers(r@) == port_order(circuit.components@, type_@, circuit.components@.len()),
        forall|i: int| 0 <= i < r@.len() ==> (#[trigger] r@[i]) < circuit.components@.len(),
{
    let ghost comps = circuit.components@;
    let mut order: Vec<usize> = Vec::new();
    assert(numbers(order@) =~= Seq::<int>::empty());
    for c in 0..circuit.components.len()
        invariant
            comps == circuit.components@,
            numbers(order@) == port_order(comps, type_@, c as nat),
            forall|i: int| 0 <= i < order@.len() ==> (#[trigger] order@[i]) < c,
    {
        if text::same(circuit.components[c].type_.as_str(), type_) {
            let ghost prev = order@;
            let mut p: usize = 0;
            while p < order.len() && !is_before(
                circuit.components[c].id.as_str(),
                circuit.components[order[p]].id.as_str(),
            )
                invariant
                    comps == circuit.components@,
                    c < comps.len(),
                    prev == order@,
                    p <= order@.len(),
                    forall|i: int| 0 <= i < order@.len() ==> (#[trigger] order@[i]) < c,
                    slot(comps, numbers(prev), c as int, 0) == slot(
                        comps,
                        numbers(prev),
                        c as int,
                        p as nat,
                    ),
                decreases order@.len() - p,
            {
                assert(numbers(prev)[p as int] == prev[p as int]);
                p = p + 1;
            }
            proof {
                if p < order.len() {
                    assert(numbers(prev)[p as int] == prev[p as int]);
                }
            }
            order.insert(p, c);
            assert(numbers(order@) =~= numbers(prev).insert(p as int, c as int));
        }
    }
    order
}

/// The widths of a circuit's ports.
pub struct PortWidths {
    pub inputs: Seq<u8>,
    pub outputs: Seq<u8>,
}

/// The width of a port, 1 where the one that is given is no width.
pub open spec fn port_width(comp: ComponentInstance) -> u8 {
    match attrs::width_of(comp) {
        Ok(bits) => bits,
        Err(_) => 1,
    }
}

/// The widths of the ports of a type.
pub open spec fn widths_of(circuit: Circuit, type_: Seq<char>) -> Seq<u8> {
    let order = port_order(circuit.components@, type_, circuit.components@.len());
    Seq::new(order.len(), |i: int| port_width(circuit.components@[order[i]]))
}

/// The widths of a circuit's ports.
pub open spec fn ports_of(circuit: Circuit) -> PortWidths {
    PortWidths {
        inputs: widths_of(circuit, "core:InputPin"@),
        outputs: widths_of(circuit, "core:OutputPin"@),
    }
}

/// The port widths of the first `k` circuits by name. Of circuits of the same name the last one
/// counts.
pub open spec fn port_table(circuits: Seq<Circuit>, k: nat) -> Map<Seq<char>, PortWidths>
    decreases k,
{
    if k == 0 {
        Map::empty()
    } else {
        port_table(circuits, (k - 1) as nat).insert(
            circuits[k - 1].name@,
            ports_of(circuits[k - 1]),
        )
    }
}

/// The port widths of circuits by name.
pub type PortTable = NameMap<(Vec<u8>, Vec<u8>)>;

/// All ports of a circuit can be numbered together, and have 1 to 32 bits each.
pub open spec fn is_sane(table: Map<Seq<char>, PortWidths>) -> bool {
    forall|name: Seq<char>| #[trigger]
        table.contains_key(name) ==> table[name].inputs.len() + table[name].outputs.len()
            <= usize::MAX && are_widths(table[name].inputs) && are_widths(table[name].outputs)
}

pub open spec fn are_widths(widths: Seq<u8>) -> bool {
    forall|i: int| 0 <= i < widths.len() ==> 1 <= #[trigger] widths[i] <= 32
}

proof fn tables_are_sane(circuits: Seq<Circuit>, k: nat)
    requires
        k <= circuits.len(),
        forall|i: int|
            0 <= i < circuits.len() ==> (#[trigger] circuits[i]).components@.len() <= usize::MAX,
    ensures
        is_sane(port_table(circuits, k)),
    decreases k,
{
    if k > 0 {
        tables_are_sane(circuits, (k - 1) as nat);
        let comps = circuits[k - 1].components@;
        reveal_strlit("core:InputPin");
        reveal_strlit("core:OutputPin");
        assert("core:InputPin"@[5] != "core:OutputPin"@[5]);
        ports_share_components(comps, "core:InputPin"@, "core:OutputPin"@, comps.len());
    }
}

/// The contents of a table of port widths.
pub open spec fn table_view(m: Map<Seq<char>, (Vec<u8>, Vec<u8>)>) -> Map<Seq<char>, PortWidths> {
    m.map_values(|w: (Vec<u8>, Vec<u8>)| PortWidths { inputs: w.0@, outputs: w.1@ })
}

/// The width of a port.
pub(crate) fn width_of_port(circuit: &Circuit, comp: &ComponentInstance) -> (r: u8)
    ensures
        r == port_width(*comp),
        1 <= r <= 32,
{
    match width_attr(circuit, comp) {
        Ok(bits) => bits,
        Err(_) => 1,
    }
}

fn port_widths(circuit: &Circuit, type_: &str) -> (r: Vec<u8>)
    ensures
        r@ == widths_of(*circuit, type_@),
{
    let order: Vec<usize> = port_components(circuit, type_);
    let mut r: Vec<u8> = Vec::new();
    for i in 0..order.len()
        invariant
            numbers(order@) == port_order(circuit.components@, type_@, circuit.components@.len()),
            forall|i: int|
                0 <= i < order@.len() ==> (#[trigger] order@[i]) < circuit.components@.len(),
            r@.len() == i,
            forall|j: int| 0 <= j < i ==> #[trigger] r@[j] == widths_of(*circuit, type_@)[j],
    {
        let comp: &ComponentInstance = &circuit.components[order[i]];
        assert(numbers(order@)[i as int] == order@[i as int]);
        r.push(width_of_port(circuit, comp));
    }
    assert(numbers(order@).len() == order@.len());
    assert(r@ =~= widths_of(*circuit, type_@));
    r
}

/// The port widths of all circuits.
pub(crate) fn all_ports(circuits: &Vec<Circuit>) -> (r: PortTable)
    ensures
        table_view(r@) == port_table(circuits@, circuits@.len()),
        is_sane(table_view(r@)),
{
    let mut r: PortTable = NameMap::new();
    assert(table_view(r@) =~= Map::<Seq<char>, PortWidths>::empty());
    for i in 0..circuits.len()
        invariant
            table_view(r@) == port_table(circuits@, i as nat),
    {
        let ghost prev = r@;
        let inputs: Vec<u8> = port_widths(&circuits[i], "core:InputPin");
        let outputs: Vec<u8> = port_widths(&circuits[i], "core:OutputPin");
        r.insert(circuits[i].name.clone(), (inputs, outputs));
        assert(table_view(r@) =~= table_view(prev).insert(
            circuits@[i as int].name@,
            ports_of(circuits@[i as int]),
        ));
    }
    proof {
        assert forall|i: int| 0 <= i < circuits@.len() implies (
        #[trigger] circuits@[i]).components@.len() <= usize::MAX by {
            assert(circuits@[i].components.len() <= usize::MAX);
        }
        tables_are_sane(circuits@, circuits@.len());
    }
    r
}

} // verus!
