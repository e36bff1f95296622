//! Compiles splitters.
//!
//! A splitter is no gate: it joins each bit of its combined end to a bit of one of its fanout
//! ends, as a wire would, in both directions and without delay.
use vstd::prelude::*;
use vstd::string::StringExecFns;
use crate::compile::attrs;
use crate::compile::attrs::{bits_attr, int_attr};
use crate::compile::error::{CompileError, Problem};
use crate::compile::geometry;
use crate::compile::geometry::{column_points, place_all, Point};
use crate::file_format::{AttrValue, Circuit, ComponentInstance};
use crate::text;

verus! {

/// Which bits of a splitter's combined end go where.
#[derive(Debug)]
pub struct SplitterWiring {
    pub combined_point: Point,
    /// The fanout ends, the first at index 0.
    pub fanout_points: Vec<Point>,
    /// For each bit of the combined end the fanout end that it goes to, counted from 1; 0 for
    /// none.
    pub bit_end: Vec<u8>,
    /// For each bit of the combined end its position within the fanout end that it goes to.
    pub bit_thread: Vec<u8>,
}

/// The mathematical content of a [`SplitterWiring`].
#[verifier::ext_equal]
pub struct WiringView {
    pub combined: (int, int),
    pub fanout: Seq<(int, int)>,
    pub ends: Seq<u8>,
}

/// The number of `fanout` ends, 2 where it is not given.
pub open spec fn fanout_of(comp: ComponentInstance) -> Result<u8, Problem> {
    let raw = attrs::int_of(comp, "fanout"@, 2);
    if 1 <= raw <= 32 {
        Ok(raw as u8)
    } else {
        Err(Problem::InvalidFanout(raw))
    }
}

/// The width of the combined end.
pub open spec fn incoming_of(comp: ComponentInstance) -> Result<u8, Problem> {
    attrs::bits_of(comp, "incoming"@, 2)
}

/// The fanout end, counted from 1, that a bit goes to by default: contiguous ranges in order,
/// the first of which have one bit more where the bits cannot be shared out evenly.
pub open spec fn default_end(fanout: nat, bits: nat, i: nat) -> nat {
    if fanout >= bits {
        i + 1
    } else {
        let share = bits / fanout;
        let extra = bits % fanout;
        if i < extra * (share + 1) {
            i / (share + 1) + 1
        } else {
            extra + (i - extra * (share + 1)) as nat / share + 1
        }
    }
}

pub open spec fn default_ends(fanout: u8, bits: u8) -> Seq<u8> {
    Seq::new(bits as nat, |i: int| default_end(fanout as nat, bits as nat, i as nat) as u8)
}

/// The number of bits that go to the first `e` ends by default.
pub open spec fn bits_before(fanout: nat, bits: nat, e: nat) -> nat {
    e * (bits / fanout) + if e < bits % fanout {
        e
    } else {
        bits % fanout
    }
}

proof fn end_from_range(fanout: nat, bits: nat, i: nat, e: nat)
    requires
        0 < fanout < bits,
        1 <= e <= fanout,
        bits_before(fanout, bits, (e - 1) as nat) <= i < bits_before(fanout, bits, e),
    ensures
        default_end(fanout, bits, i) == e,
{
    let share = bits / fanout;
    let extra = bits % fanout;
    assert(share >= 1) by (nonlinear_arith)
        requires
            share == bits / fanout,
            0 < fanout < bits,
    ;
    let d = (e - 1) as nat;
    assert(e * share == d * share + share) by (nonlinear_arith)
        requires
            e == d + 1,
    ;
    if e <= extra {
        assert(d * (share + 1) == d * share + d) by (nonlinear_arith);
        assert(e * (share + 1) == e * share + e) by (nonlinear_arith);
        assert(e * (share + 1) <= extra * (share + 1)) by (nonlinear_arith)
            requires
                e <= extra,
        ;
        assert(i / (share + 1) == d) by (nonlinear_arith)
            requires
                d * (share + 1) <= i < (d + 1) * (share + 1),
        ;
    } else {
        let k = (d - extra) as nat;
        assert(extra * (share + 1) == extra * share + extra) by (nonlinear_arith);
        assert(d * share == extra * share + k * share) by (nonlinear_arith)
            requires
                d == extra + k,
        ;
        let j = (i - extra * (share + 1)) as nat;
        assert(j / share == k) by (nonlinear_arith)
            requires
                share >= 1,
                k * share <= j < k * share + share,
        ;
    }
}

/// By default each end gets the bits after those of the ends before it, as many as every other
/// end or one more, and the ends that get one more come first.
pub proof fn default_ends_are_ranges(fanout: nat, bits: nat, i: nat, e: nat)
    requires
        0 < fanout,
        i < bits,
        1 <= e <= fanout,
    ensures
        default_end(fanout, bits, i) == e <==> bits_before(fanout, bits, (e - 1) as nat) <= i
            < bits_before(fanout, bits, e),
{
    if fanout < bits {
        if bits_before(fanout, bits, (e - 1) as nat) <= i < bits_before(fanout, bits, e) {
            end_from_range(fanout, bits, i, e);
        }
        let f = some_range(fanout, bits, i, fanout);
        end_from_range(fanout, bits, i, f);
    } else {
        assert(bits / fanout == 0 || (bits == fanout && bits / fanout == 1)) by (nonlinear_arith)
            requires
                0 < fanout,
                bits <= fanout,
        ;
        if bits < fanout {
            vstd::arithmetic::div_mod::lemma_small_mod(bits, fanout);
            vstd::arithmetic::div_mod::lemma_basic_div(bits as int, fanout as int);
        } else {
            vstd::arithmetic::div_mod::lemma_mod_self_0(fanout as int);
            vstd::arithmetic::div_mod::lemma_div_by_self(fanout as int);
        }
        assert(e * 0 == 0 && (e - 1) * 0 == 0 && e * 1 == e && (e - 1) * 1 == e - 1);
    }
}

/// The first `e` ends that together get more bits than `i` include the one that gets bit `i`.
proof fn some_range(fanout: nat, bits: nat, i: nat, e: nat) -> (f: nat)
    requires
        0 < fanout < bits,
        e <= fanout,
        e == fanout ==> i < bits,
        e < fanout ==> i < bits_before(fanout, bits, e),
    ensures
        1 <= f <= fanout,
        bits_before(fanout, bits, (f - 1) as nat) <= i < bits_before(fanout, bits, f),
    decreases e,
{
    vstd::arithmetic::div_mod::lemma_fundamental_div_mod(bits as int, fanout as int);
    vstd::arithmetic::div_mod::lemma_mod_bound(bits as int, fanout as int);
    assert(bits_before(fanout, bits, fanout) == bits) by {
        assert(fanout * (bits / fanout) == (bits / fanout) * fanout) by (nonlinear_arith);
    }
    assert(0 * (bits / fanout) == 0);
    if e == 0 {
        1
    } else if bits_before(fanout, bits, (e - 1) as nat) <= i {
        e
    } else {
        some_range(fanout, bits, i, (e - 1) as nat)
    }
}

/// Distributes the bits of the combined end over the fanout ends.
pub fn default_bit_end(fanout: u8, bits: u8) -> (r: Vec<u8>)
    requires
        fanout > 0 || bits == 0,
    ensures
        r@ == default_ends(fanout, bits),
{
    let mut r: Vec<u8> = Vec::new();
    if fanout >= bits {
        for i in 0..bits
            invariant
                r@.len() == i,
                forall|j: int| 0 <= j < i ==> r@[j] == j + 1,
        {
            r.push(i + 1);
        }
        assert(r@ =~= default_ends(fanout, bits));
        return r;
    }
    let threads_per_end: u8 = bits / fanout;
    let mut ends_with_extra: u8 = bits % fanout;
    let mut cur_end: u8 = 0;
    let mut left_in_end: u8 = 0;
    let ghost f = fanout as nat;
    let ghost b = bits as nat;
    proof {
        vstd::arithmetic::div_mod::lemma_fundamental_div_mod(b as int, f as int);
        vstd::arithmetic::div_mod::lemma_mod_bound(b as int, f as int);
        assert(f * (b / f) == (b / f) * f) by (nonlinear_arith);
        assert(bits_before(f, b, f) == b);
        assert(0 * (b / f) == 0);
    }
    for i in 0..bits
        invariant
            0 < fanout < bits,
            f == fanout as nat,
            b == bits as nat,
            threads_per_end == b / f,
            bits_before(f, b, f) == b,
            cur_end <= fanout,
            ends_with_extra == (if cur_end < b % f {
                b % f - cur_end
            } else {
                0
            }),
            i + left_in_end == bits_before(f, b, cur_end as nat),
            cur_end == 0 ==> left_in_end == 0,
            left_in_end > 0 ==> bits_before(f, b, (cur_end - 1) as nat) <= i,
            r@.len() == i,
            forall|j: int| 0 <= j < i ==> r@[j] == default_end(f, b, j as nat),
    {
        if left_in_end == 0 {
            assert(cur_end < fanout);
            let ghost c = cur_end as nat;
            proof {
                let share: nat = b / f;
                assert((c + 1) * share == c * share + share) by (nonlinear_arith);
                vstd::arithmetic::div_mod::lemma_fundamental_div_mod(b as int, f as int);
                assert(b / f <= b && b / f >= 1 && b % f <= b) by (nonlinear_arith)
                    requires
                        0 < f < b,
                ;
            }
            assert(bits_before(f, b, c + 1) <= b) by {
                assert(i + 0 == bits_before(f, b, c));
                bits_before_grows(f, b, c + 1, f);
            }
            cur_end = cur_end + 1;
            left_in_end = threads_per_end;
            if ends_with_extra > 0 {
                left_in_end = left_in_end + 1;
                ends_with_extra = ends_with_extra - 1;
            }
        }
        proof {
            end_from_range(f, b, i as nat, cur_end as nat);
        }
        r.push(cur_end);
        left_in_end = left_in_end - 1;
    }
    assert(r@ =~= default_ends(fanout, bits));
    r
}

proof fn bits_before_grows(fanout: nat, bits: nat, e: nat, g: nat)
    requires
        e <= g,
        fanout > 0,
    ensures
        bits_before(fanout, bits, e) <= bits_before(fanout, bits, g),
{
    let share: nat = bits / fanout;
    assert(e * share <= g * share) by (nonlinear_arith)
        requires
            e <= g,
    ;
}

/// How many of the first `k` bits go to an end.
pub open spec fn bits_to(ends: Seq<u8>, end: u8, k: nat) -> nat
    decreases k,
{
    if k == 0 {
        0
    } else {
        bits_to(ends, end, (k - 1) as nat) + if ends[k - 1] == end {
            1nat
        } else {
            0nat
        }
    }
}

/// The position of a bit within the end that it goes to: how many bits before it go there.
pub open spec fn thread(ends: Seq<u8>, i: int) -> nat {
    if ends[i] > 0 {
        bits_to(ends, ends[i], i as nat)
    } else {
        0
    }
}

proof fn bits_to_grows(ends: Seq<u8>, end: u8, j: nat, k: nat)
    requires
        j <= k,
    ensures
        bits_to(ends, end, j) <= bits_to(ends, end, k) <= bits_to(ends, end, j) + (k - j),
    decreases k,
{
    if j < k {
        bits_to_grows(ends, end, j, (k - 1) as nat);
    }
}

pub(crate) proof fn bits_to_bound(ends: Seq<u8>, end: u8, k: nat)
    ensures
        bits_to(ends, end, k) <= k,
{
    bits_to_grows(ends, end, 0, k);
}

/// No two bits of the combined end are joined to the same bit of a fanout end.
pub proof fn splitters_keep_bits_apart(ends: Seq<u8>, i: int, j: int)
    requires
        0 <= i < j < ends.len(),
        ends[i] == ends[j],
        ends[i] > 0,
    ensures
        thread(ends, i) < thread(ends, j),
{
    bits_to_grows(ends, ends[i], (i + 1) as nat, j as nat);
}

/// The bits of a fanout end are taken without gaps.
pub proof fn threads_have_no_gaps(ends: Seq<u8>, end: u8, t: nat, k: nat)
    requires
        k <= ends.len(),
        end > 0,
        t < bits_to(ends, end, k),
    ensures
        exists|i: int| 0 <= i < k && #[trigger] ends[i] == end && thread(ends, i) == t,
    decreases k,
{
    if t < bits_to(ends, end, (k - 1) as nat) {
        threads_have_no_gaps(ends, end, t, (k - 1) as nat);
    } else {
        assert(ends[k - 1] == end && thread(ends, k - 1) == t);
    }
}

/// Numbers the bits within the ends that they go to.
pub fn bit_thread_for(bit_end: &[u8]) -> (r: Vec<u8>)
    requires
        forall|i: int| 0 <= i < bit_end@.len() ==> #[trigger] bit_end@[i] <= 32,
        forall|e: u8| #[trigger] bits_to(bit_end@, e, bit_end@.len()) <= u8::MAX || e == 0,
    ensures
        r@.len() == bit_end@.len(),
        forall|i: int| 0 <= i < r@.len() ==> #[trigger] r@[i] == thread(bit_end@, i),
{
    let mut end_width: Vec<u8> = Vec::new();
    for e in 0..33usize
        invariant
            end_width@.len() == e,
            forall|j: int| 0 <= j < e ==> end_width@[j] == 0,
    {
        end_width.push(0);
    }
    let mut r: Vec<u8> = Vec::new();
    for i in 0..bit_end.len()
        invariant
            forall|i: int| 0 <= i < bit_end@.len() ==> #[trigger] bit_end@[i] <= 32,
            forall|e: u8| #[trigger] bits_to(bit_end@, e, bit_end@.len()) <= u8::MAX || e == 0,
            end_width@.len() == 33,
            forall|e: u8|
                1 <= e <= 32 ==> #[trigger] end_width@[e as int] == bits_to(bit_end@, e, i as nat),
            r@.len() == i,
            forall|j: int| 0 <= j < i ==> #[trigger] r@[j] == thread(bit_end@, j),
    {
        let end: u8 = bit_end[i];
        if end > 0 {
            let t: u8 = end_width[end as usize];
            proof {
                bits_to_grows(bit_end@, end, (i + 1) as nat, bit_end@.len());
                assert(bits_to(bit_end@, end, bit_end@.len()) <= u8::MAX);
            }
            end_width[end as usize] = t + 1;
            r.push(t);
        } else {
            r.push(0);
        }
    }
    r
}

/// The ends that the first `k` entries of a list name, or what is wrong with the first bad one.
pub open spec fn listed_ends(entries: Seq<Option<i64>>, fanout: u8, k: nat) -> Result<
    Seq<u8>,
    Seq<char>,
>
    decreases k,
{
    if k == 0 {
        Ok(Seq::empty())
    } else {
        match listed_ends(entries, fanout, (k - 1) as nat) {
            Err(reason) => Err(reason),
            Ok(ends) => match entries[k - 1] {
                None => Err("entries must be integers"@),
                Some(n) => if 0 <= n <= fanout {
                    Ok(ends.push(n as u8))
                } else {
                    Err(
                        "entry "@ + text::decimal_int(n as int) + " outside 0..="@ + text::decimal(
                            fanout as nat,
                        ),
                    )
                },
            },
        }
    }
}

/// The list that an attribute is, if it is one.
pub open spec fn list_of(comp: ComponentInstance, key: Seq<char>) -> Option<Seq<Option<i64>>> {
    if comp.attrs@.contains_key(key) {
        match comp.attrs@[key] {
            AttrValue::Array(entries) => Some(entries@),
            _ => None,
        }
    } else {
        None
    }
}

/// The ends that the bits of the combined end go to: those that `bits` lists, or the default.
pub open spec fn ends_of(comp: ComponentInstance, fanout: u8, incoming: u8) -> Result<
    Seq<u8>,
    Problem,
> {
    match list_of(comp, "bits"@) {
        None => Ok(default_ends(fanout, incoming)),
        Some(entries) => if entries.len() != incoming {
            Err(
                Problem::InvalidSplitterBits(
                    "expected "@ + text::decimal(incoming as nat) + " entries, got "@
                        + text::decimal(entries.len()),
                ),
            )
        } else {
            match listed_ends(entries, fanout, entries.len()) {
                Ok(ends) => Ok(ends),
                Err(reason) => Err(Problem::InvalidSplitterBits(reason)),
            }
        },
    }
}

/// How a splitter joins what it is placed on.
pub open spec fn wiring_of(comp: ComponentInstance) -> Result<WiringView, Problem> {
    match (fanout_of(comp), incoming_of(comp)) {
        (Err(p), _) => Err(p),
        (_, Err(p)) => Err(p),
        (Ok(fanout), Ok(incoming)) => match ends_of(comp, fanout, incoming) {
            Err(p) => Err(p),
            Ok(ends) => Ok(
                WiringView {
                    combined: geometry::placed(comp, (0, 0)),
                    fanout: geometry::all_placed(comp, geometry::column(3, fanout as nat)),
                    ends,
                },
            ),
        },
    }
}

impl View for SplitterWiring {
    type V = WiringView;

    open spec fn view(&self) -> WiringView {
        WiringView {
            combined: (self.combined_point.0 as int, self.combined_point.1 as int),
            fanout: geometry::points(self.fanout_points@),
            ends: self.bit_end@,
        }
    }
}

impl WiringView {
    /// The combined end has at most 32 bits, and they go to ends that there are.
    pub open spec fn is_sound(self) -> bool {
        &&& self.ends.len() <= 32
        &&& self.fanout.len() <= 32
        &&& forall|i: int|
            0 <= i < self.ends.len() ==> #[trigger] self.ends[i] <= self.fanout.len()
    }
}

impl SplitterWiring {
    /// The positions are those of the bits within their ends.
    pub open spec fn wf(&self) -> bool {
        &&& self@.is_sound()
        &&& self.bit_thread@.len() == self.bit_end@.len()
        &&& forall|i: int|
            0 <= i < self.bit_thread@.len() ==> #[trigger] self.bit_thread@[i] == thread(
                self.bit_end@,
                i,
            )
    }
}

fn fanout_attr(circuit: &Circuit, comp: &ComponentInstance) -> (r: Result<u8, CompileError>)
    ensures
        attrs::agrees(r, fanout_of(*comp), *circuit, *comp),
{
    let raw: i64 = int_attr(comp, "fanout", 2);
    if 1 <= raw && raw <= 32 {
        Ok(raw as u8)
    } else {
        Err(
            CompileError::InvalidFanout {
                circuit: circuit.name.clone(),
                id: comp.id.clone(),
                value: raw,
            },
        )
    }
}

fn incoming_attr(circuit: &Circuit, comp: &ComponentInstance) -> (r: Result<u8, CompileError>)
    ensures
        attrs::agrees(r, incoming_of(*comp), *circuit, *comp),
{
    bits_attr(circuit, comp, "incoming", 2)
}

/// The ends that a list names, or what is wrong with it.
fn read_ends(entries: &Vec<Option<i64>>, fanout: u8) -> (r: Result<Vec<u8>, String>)
    ensures
        match (r, listed_ends(entries@, fanout, entries@.len())) {
            (Ok(a), Ok(b)) => a@ == b,
            (Err(a), Err(b)) => a@ == b,
            _ => false,
        },
{
    let mut ends: Vec<u8> = Vec::new();
    for i in 0..entries.len()
        invariant
            listed_ends(entries@, fanout, i as nat) == Ok::<Seq<u8>, Seq<char>>(ends@),
    {
        let entry: Option<i64> = entries[i];
        let ghost step = listed_ends(entries@, fanout, (i + 1) as nat);
        match entry {
            None => {
                proof {
                    stays_bad(entries@, fanout, (i + 1) as nat, entries@.len());
                }
                return Err("entries must be integers".to_owned());
            },
            Some(n) => {
                if 0 <= n && n <= fanout as i64 {
                    ends.push(n as u8);
                } else {
                    let mut reason: String = "entry ".to_owned();
                    text::push_int(&mut reason, n);
                    reason.append(" outside 0..=");
                    text::push_decimal(&mut reason, fanout as u64);
                    proof {
                        stays_bad(entries@, fanout, (i + 1) as nat, entries@.len());
                    }
                    return Err(reason);
                }
            },
        }
    }
    Ok(ends)
}

proof fn stays_bad(entries: Seq<Option<i64>>, fanout: u8, j: nat, k: nat)
    requires
        j <= k,
        listed_ends(entries, fanout, j) is Err,
    ensures
        listed_ends(entries, fanout, k) == listed_ends(entries, fanout, j),
    decreases k,
{
    if j < k {
        stays_bad(entries, fanout, j, (k - 1) as nat);
    }
}

proof fn listed_ends_are_ends(entries: Seq<Option<i64>>, fanout: u8, k: nat)
    ensures
        listed_ends(entries, fanout, k) matches Ok(ends) ==> ends.len() == k && forall|i: int|
            0 <= i < k ==> #[trigger] ends[i] <= fanout,
    decreases k,
{
    if k > 0 {
        listed_ends_are_ends(entries, fanout, (k - 1) as nat);
    }
}

/// The ends of a splitter are ends that it has, one for each bit of the combined end.
pub proof fn ends_are_ends(comp: ComponentInstance, fanout: u8, incoming: u8)
    requires
        fanout > 0,
    ensures
        ends_of(comp, fanout, incoming) matches Ok(ends) ==> ends.len() == incoming && forall|i: int|
            0 <= i < ends.len() ==> #[trigger] ends[i] <= fanout,
{
    match list_of(comp, "bits"@) {
        None => {
            let ends = default_ends(fanout, incoming);
            assert forall|i: int| 0 <= i < ends.len() implies #[trigger] ends[i] <= fanout by {
                if fanout < incoming {
                    let e = some_range(fanout as nat, incoming as nat, i as nat, fanout as nat);
                    end_from_range(fanout as nat, incoming as nat, i as nat, e);
                }
            }
        },
        Some(entries) => {
            listed_ends_are_ends(entries, fanout, entries.len());
        },
    }
}

fn bit_end_attr(circuit: &Circuit, comp: &ComponentInstance, fanout: u8, incoming: u8) -> (r: Result<
    Vec<u8>,
    CompileError,
>)
    requires
        fanout > 0,
    ensures
        match (r, ends_of(*comp, fanout, incoming)) {
            (Ok(a), Ok(b)) => a@ == b,
            (Err(e), Err(problem)) => e@ == attrs::error_at(*circuit, *comp, problem),
            _ => false,
        },
{
    let listed: Option<&Vec<Option<i64>>> = match comp.attrs.get("bits") {
        None => None,
        Some(v) => v.as_array(),
    };
    let reason: String = match listed {
        None => {
            return Ok(default_bit_end(fanout, incoming));
        },
        Some(entries) => {
            if entries.len() != incoming as usize {
                let mut reason: String = "expected ".to_owned();
                text::push_decimal(&mut reason, incoming as u64);
                reason.append(" entries, got ");
                text::push_decimal(&mut reason, entries.len() as u64);
                reason
            } else {
                match read_ends(entries, fanout) {
                    Ok(ends) => {
                        return Ok(ends);
                    },
                    Err(reason) => reason,
                }
            }
        },
    };
    Err(
        CompileError::InvalidSplitterBits {
            circuit: circuit.name.clone(),
            id: comp.id.clone(),
            reason,
        },
    )
}

/// Compiles a splitter.
pub(crate) fn compile(circuit: &Circuit, comp: &ComponentInstance) -> (r: Result<
    SplitterWiring,
    CompileError,
>)
    ensures
        match (r, wiring_of(*comp)) {
            (Ok(a), Ok(b)) => a@ == b && a.wf(),
            (Err(e), Err(problem)) => e@ == attrs::error_at(*circuit, *comp, problem),
            _ => false,
        },
{
    let fanout: u8 = match fanout_attr(circuit, comp) {
        Ok(fanout) => fanout,
        Err(e) => {
            return Err(e);
        },
    };
    let incoming: u8 = match incoming_attr(circuit, comp) {
        Ok(incoming) => incoming,
        Err(e) => {
            return Err(e);
        },
    };
    let bit_end: Vec<u8> = match bit_end_attr(circuit, comp, fanout, incoming) {
        Ok(bit_end) => bit_end,
        Err(e) => {
            return Err(e);
        },
    };
    proof {
        ends_are_ends(*comp, fanout, incoming);
        assert forall|e: u8| #[trigger] bits_to(bit_end@, e, bit_end@.len()) <= u8::MAX by {
            bits_to_grows(bit_end@, e, 0, bit_end@.len());
        }
    }
    let bit_thread: Vec<u8> = bit_thread_for(bit_end.as_slice());
    let fanout_points: Vec<Point> = place_all(comp, &column_points(3, fanout as usize));
    let combined_point: Point = (comp.x as i128, comp.y as i128);
    let r = SplitterWiring { combined_point, fanout_points, bit_end, bit_thread };
    assert(r@ =~= wiring_of(*comp)->Ok_0);
    Ok(r)
}

} // verus!
