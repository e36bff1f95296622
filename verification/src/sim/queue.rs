//! The event queue: gates to be evaluated, and when.
use vstd::prelude::*;

verus! {

/// A gate to be evaluated at a time.
#[derive(Debug, Clone, Copy, PartialEq, Eq, Structural)]
pub struct Event {
    pub time: u64,
    pub gate: usize,
}

/// A queue of events. Its mathematical content is the set of the pairs of time and gate.
#[derive(Debug)]
pub struct EventQueue {
    /// The earliest events are last.
    events: Vec<Event>,
}

impl View for EventQueue {
    type V = Set<(u64, usize)>;

    closed spec fn view(&self) -> Set<(u64, usize)> {
        Set::new(
            |e: (u64, usize)|
                self.events@.contains(Event { time: e.0, gate: e.1 }),
        )
    }
}

/// The earliest time in a set of events.
pub open spec fn is_earliest(queue: Set<(u64, usize)>, t: u64) -> bool {
    &&& exists|g: usize| queue.contains((t, g))
    &&& forall|e: (u64, usize)| #[trigger] queue.contains(e) ==> t <= e.0
}

impl EventQueue {
    pub closed spec fn wf(&self) -> bool {
        forall|i: int, j: int|
            0 <= i <= j < self.events@.len() ==> self.events@[i].time >= self.events@[j].time
    }

    pub fn new() -> (r: Self)
        ensures
            r.wf(),
            r@ == Set::<(u64, usize)>::empty(),
    {
        let r = EventQueue { events: Vec::new() };
        assert(r@ =~= Set::<(u64, usize)>::empty());
        r
    }

    /// Adds an event.
    pub fn push(&mut self, time: u64, gate: usize)
        requires
            old(self).wf(),
        ensures
            final(self).wf(),
            final(self)@ == old(self)@.insert((time, gate)),
    {
        let ghost before = self.events@;
        let mut at: usize = self.events.len();
        while at > 0 && self.events[at - 1].time < time
            invariant
                at <= self.events@.len(),
                self.events@ == before,
                forall|j: int| at <= j < before.len() ==> before[j].time < time,
            decreases at,
        {
            at = at - 1;
        }
        let event: Event = Event { time, gate };
        self.events.insert(at, event);
        proof {
            let after = self.events@;
            assert(after == before.insert(at as int, event));
            assert forall|i: int, j: int| 0 <= i <= j < after.len() implies after[i].time
                >= after[j].time by {
                let a = if i < at {
                    i
                } else {
                    i - 1
                };
                let b = if j < at {
                    j
                } else {
                    j - 1
                };
                if i != at && j != at {
                    assert(after[i] == before[a] && after[j] == before[b]);
                } else if i == at && j != at {
                    assert(after[j] == before[b]);
                } else if j == at && i != at {
                    assert(after[i] == before[i]);
                    if at > 0 {
                        assert(before[i].time >= before[at - 1].time);
                    }
                }
            }
            assert forall|e: (u64, usize)| self@.contains(e) <==> old(self)@.insert(
                (time, gate),
            ).contains(e) by {
                let x = Event { time: e.0, gate: e.1 };
                if after.contains(x) {
                    let i = choose|i: int| 0 <= i < after.len() && after[i] == x;
                    if i < at {
                        assert(before[i] == x);
                    } else if i > at {
                        assert(before[i - 1] == x);
                    }
                }
                if before.contains(x) {
                    let i = choose|i: int| 0 <= i < before.len() && before[i] == x;
                    if i < at {
                        assert(after[i] == x);
                    } else {
                        assert(after[i + 1] == x);
                    }
                }
                assert(after[at as int] == event);
            }
            assert(self@ =~= old(self)@.insert((time, gate)));
        }
    }

    /// The earliest time, if there is any event.
    pub fn next_time(&self) -> (r: Option<u64>)
        requires
            self.wf(),
        ensures
            match r {
                Some(t) => is_earliest(self@, t),
                None => self@ == Set::<(u64, usize)>::empty(),
            },
    {
        let n: usize = self.events.len();
        if n == 0 {
            assert(self@ =~= Set::<(u64, usize)>::empty());
            None
        } else {
            let first: Event = self.events[n - 1];
            proof {
                assert(self.events@[n - 1] == first);
                assert(Event { time: first.time, gate: first.gate } == first);
                assert(self@.contains((first.time, first.gate)));
                assert forall|e: (u64, usize)| #[trigger] self@.contains(e) implies first.time
                    <= e.0 by {
                    let x = Event { time: e.0, gate: e.1 };
                    let i = choose|i: int| 0 <= i < self.events@.len() && self.events@[i] == x;
                    assert(self.events@[i].time >= self.events@[n - 1].time);
                }
            }
            Some(first.time)
        }
    }

    /// The event is in the queue.
    pub fn contains(&self, time: u64, gate: usize) -> (r: bool)
        ensures
            r == self@.contains((time, gate)),
    {
        let ghost x = Event { time, gate };
        for i in 0..self.events.len()
            invariant
                x == (Event { time, gate }),
                forall|j: int| 0 <= j < i ==> self.events@[j] != x,
        {
            if self.events[i].time == time && self.events[i].gate == gate {
                assert(self.events@[i as int] == x);
                return true;
            }
        }
        false
    }

    /// Takes all events at the earliest time, and marks their gates.
    pub fn take_batch(&mut self, time: u64, n: usize) -> (marks: Vec<bool>)
        requires
            old(self).wf(),
            is_earliest(old(self)@, time),
            forall|e: (u64, usize)| #[trigger] old(self)@.contains(e) ==> e.1 < n,
        ensures
            final(self).wf(),
            marks@.len() == n,
            forall|g: usize| g < n ==> marks@[g as int] == old(self)@.contains((time, g)),
            forall|e: (u64, usize)| #[trigger]
                final(self)@.contains(e) <==> old(self)@.contains(e) && e.0 != time,
    {
        let ghost before = self.events@;
        let mut marks: Vec<bool> = Vec::new();
        for i in 0..n
            invariant
                marks@.len() == i,
                forall|j: int| 0 <= j < i ==> marks@[j] == false,
        {
            marks.push(false);
        }
        proof {
            assert forall|i: int| 0 <= i < before.len() implies (#[trigger] before[i]).gate < n by {
                let e = before[i];
                assert(Event { time: e.time, gate: e.gate } == before[i]);
                assert(old(self)@.contains((e.time, e.gate)));
            }
            assert(before.take(before.len() as int) =~= before);
        }
        while self.events.len() > 0 && self.events[self.events.len() - 1].time == time
            invariant
                marks@.len() == n,
                self.wf(),
                self.events@.len() <= before.len(),
                self.events@ == before.take(self.events@.len() as int),
                forall|i: int| 0 <= i < before.len() ==> (#[trigger] before[i]).gate < n,
                forall|i: int| self.events@.len() <= i < before.len() ==> (
                #[trigger] before[i]).time == time,
                forall|g: int|
                    0 <= g < n ==> (#[trigger] marks@[g] <==> exists|i: int|
                        self.events@.len() <= i < before.len() && (#[trigger] before[i]).gate == g),
            decreases self.events@.len(),
        {
            let ghost len = self.events@.len();
            let ghost old_marks = marks@;
            assert(self.events@[len - 1] == before[len - 1]);
            match self.events.pop() {
                Some(event) => {
                    assert(event == before[len - 1]);
                    marks[event.gate] = true;
                    proof {
                        assert(self.events@ =~= before.take(len - 1));
                        assert forall|g: int| 0 <= g < n implies (#[trigger] marks@[g] <==> exists|
                            i: int,
                        |
                            len - 1 <= i < before.len() && (#[trigger] before[i]).gate == g) by {
                            assert(old_marks[g] <==> exists|i: int|
                                len <= i < before.len() && (#[trigger] before[i]).gate == g);
                            if g == event.gate {
                                assert(before[len - 1].gate == g);
                            }
                        }
                    }
                },
                None => {},
            }
        }
        proof {
            let len = self.events@.len() as int;
            assert forall|i: int| 0 <= i < len implies (#[trigger] before[i]).time != time by {
                assert(self.events@[i] == before[i]);
                assert(self.events@[i].time >= self.events@[len - 1].time);
                let last = self.events@[len - 1];
                assert(before[len - 1] == last);
                assert(Event { time: last.time, gate: last.gate } == before[len - 1]);
                assert(old(self)@.contains((last.time, last.gate)));
            }
            assert forall|g: usize| g < n implies marks@[g as int] == old(self)@.contains(
                (time, g),
            ) by {
                let x = Event { time, gate: g };
                if old(self)@.contains((time, g)) {
                    let i = choose|i: int| 0 <= i < before.len() && before[i] == x;
                    assert(before[i].gate == g);
                }
                if marks@[g as int] {
                    let i = choose|i: int|
                        len <= i < before.len() && (#[trigger] before[i]).gate == g as int;
                    assert(before[i] == x);
                }
            }
            assert forall|e: (u64, usize)| #[trigger] self@.contains(e) <==> old(self)@.contains(e)
                && e.0 != time by {
                let x = Event { time: e.0, gate: e.1 };
                if self@.contains(e) {
                    let i = choose|i: int| 0 <= i < self.events@.len() && self.events@[i] == x;
                    assert(before[i] == x);
                }
                if old(self)@.contains(e) && e.0 != time {
                    let i = choose|i: int| 0 <= i < before.len() && before[i] == x;
                    assert(i < len);
                    assert(self.events@[i] == x);
                }
            }
        }
        marks
    }
}

} // verus!
