//! Laws of the input states of a simulation.
use crate::trace::{is_flag, is_flag_of, pin_in, ClockFlags, InputPin, Trace};
use vstd::prelude::*;

verus! {

/// What a dump says next.
pub enum Event {
    Timestamp(u64),
    Value(InputPin, bool),
}

/// The trace after one more event.
pub open spec fn step(
    m: Trace,
    e: Event,
    clocks: Seq<ClockFlags>,
    max_cycles: Option<usize>,
) -> Trace {
    match e {
        Event::Timestamp(t) => m.at_time(t, clocks, max_cycles),
        Event::Value(pin, one) => m.at_value(pin, one),
    }
}

/// The trace after a series of events.
pub open spec fn read(
    size: int,
    events: Seq<Event>,
    clocks: Seq<ClockFlags>,
    max_cycles: Option<usize>,
) -> Trace
    decreases events.len(),
{
    if events.len() == 0 {
        Trace::start(size)
    } else {
        step(read(size, events.drop_last(), clocks, max_cycles), events.last(), clocks, max_cycles)
    }
}

/// The inputs of the events lie in a state of `n` bits.
pub open spec fn events_in(events: Seq<Event>, n: int) -> bool {
    forall|i: int|
        0 <= i < events.len() ==> (#[trigger] events[i] matches Event::Value(pin, _) ==> pin_in(
            pin,
            n,
        ))
}

/// Every step has one state of `size` words, and its offset is where that
/// state ends.
pub open spec fn aligned(m: Trace, size: int) -> bool {
    &&& m.state.len() == size * 32
    &&& m.states.len() == m.offsets.len() * size * 32
    &&& forall|k: int| 0 <= k < m.offsets.len() ==> (#[trigger] m.offsets[k]).0 == (k + 1) * size
}

/// However a dump is read, every step has one state of the given size, and its
/// offset is where that state ends.
pub proof fn offsets_follow_the_states(
    size: int,
    events: Seq<Event>,
    clocks: Seq<ClockFlags>,
    max_cycles: Option<usize>,
)
    requires
        size >= 0,
        events_in(events, size * 32),
    ensures
        aligned(read(size, events, clocks, max_cycles), size),
    decreases events.len(),
{
    if events.len() > 0 {
        let front = events.drop_last();
        assert(events_in(front, size * 32)) by {
            assert forall|i: int| 0 <= i < front.len() implies (#[trigger] front[i] matches Event::Value(
                pin,
                _,
            ) ==> pin_in(pin, size * 32)) by {
                assert(front[i] == events[i]);
            }
        }
        offsets_follow_the_states(size, front, clocks, max_cycles);
        let m = read(size, front, clocks, max_cycles);
        let n = m.offsets.len() as int;
        let r = m.recorded(clocks);
        assert(r.states.len() == (n + 1) * size * 32) by (nonlinear_arith)
            requires
                r.states.len() == n * size * 32 + size * 32,
        ;
        assert(((n + 1) * size * 32) / 32 == (n + 1) * size);
        match events.last() {
            Event::Timestamp(t) => {
                assert(aligned(r, size));
            },
            Event::Value(pin, one) => {},
        }
    }
}

/// The flags of the inputs of the events are those of the clocks, and no input
/// lies on a flag.
pub open spec fn events_clocked(events: Seq<Event>, clocks: Seq<ClockFlags>) -> bool {
    forall|i: int|
        0 <= i < events.len() ==> (#[trigger] events[i] matches Event::Value(pin, _) ==> {
            &&& !is_flag(clocks, pin.pos as int)
            &&& forall|p: int| #[trigger] is_flag_of(pin.flags, p) ==> is_flag(clocks, p)
        })
}

/// All flags are down, and no flag waits to be turned over.
pub open spec fn flags_rest(m: Trace, clocks: Seq<ClockFlags>) -> bool {
    &&& !m.active ==> forall|p: int|
        0 <= p < m.state.len() && #[trigger] is_flag(clocks, p) ==> !m.state[p]
    &&& forall|q: usize| #[trigger] m.delayed.contains(q) ==> !is_flag(clocks, q as int)
}

/// However a dump is read, a flag is up only at a time at which a clock edge
/// has been seen.
pub proof fn flags_are_up_only_at_edges(
    size: int,
    events: Seq<Event>,
    clocks: Seq<ClockFlags>,
    max_cycles: Option<usize>,
)
    requires
        size >= 0,
        events_in(events, size * 32),
        events_clocked(events, clocks),
    ensures
        flags_rest(read(size, events, clocks, max_cycles), clocks),
    decreases events.len(),
{
    if events.len() > 0 {
        let front = events.drop_last();
        assert forall|i: int| 0 <= i < front.len() implies front[i] == events[i] by {}
        assert(events_in(front, size * 32));
        assert(events_clocked(front, clocks));
        flags_are_up_only_at_edges(size, front, clocks, max_cycles);
        offsets_follow_the_states(size, front, clocks, max_cycles);
        let m = read(size, front, clocks, max_cycles);
        let e = events[events.len() - 1];
        match e {
            Event::Timestamp(t) => {
                let s = m.settled(clocks);
                assert forall|p: int| 0 <= p < s.state.len() && #[trigger] is_flag(
                    clocks,
                    p,
                ) implies !s.moved(t).state[p] by {
                    assert(!s.state[p]);
                }
            },
            Event::Value(pin, one) => {},
        }
    }
}

/// An input keeps the value that a step reads until the time moves on: giving
/// inputs values changes flags alone.
pub proof fn values_wait_for_the_next_time(m: Trace, pin: InputPin, one: bool, p: int)
    requires
        pin_in(pin, m.state.len() as int),
        0 <= p < m.state.len(),
        !is_flag_of(pin.flags, p),
    ensures
        m.at_value(pin, one).state[p] == m.state[p],
{
}

/// When the time moves on, an input takes the value that it was given, where it
/// had not been given another at the same time before.
pub proof fn inputs_take_their_values(
    m: Trace,
    pin: InputPin,
    one: bool,
    t: u64,
    clocks: Seq<ClockFlags>,
    max_cycles: Option<usize>,
)
    requires
        pin_in(pin, m.state.len() as int),
        !is_flag(clocks, pin.pos as int),
        !is_flag_of(pin.flags, pin.pos as int),
        !m.delayed.contains(pin.pos),
        t != m.time,
        !m.at_value(pin, one).is_full(t, max_cycles),
    ensures
        m.at_value(pin, one).at_time(t, clocks, max_cycles).state[pin.pos as int] == one,
{
    let given = m.at_value(pin, one);
    assert(given.state[pin.pos as int] == m.state[pin.pos as int]);
    let s = given.settled(clocks);
    assert(s.state[pin.pos as int] == m.state[pin.pos as int]);
}

/// Inputs that are not given a value keep theirs when the time moves on.
pub proof fn inputs_keep_their_values(
    m: Trace,
    p: usize,
    t: u64,
    clocks: Seq<ClockFlags>,
    max_cycles: Option<usize>,
)
    requires
        p < m.state.len(),
        !is_flag(clocks, p as int),
        !m.delayed.contains(p),
    ensures
        m.at_time(t, clocks, max_cycles).state[p as int] == m.state[p as int],
{
    let s = m.settled(clocks);
    assert(s.state[p as int] == m.state[p as int]);
}

/// A clock edge raises the flag of its direction and makes a step of the time
/// at which it comes.
pub proof fn edges_raise_their_flags(m: Trace, pin: InputPin, one: bool)
    requires
        pin_in(pin, m.state.len() as int),
        m.state[pin.pos as int] != one,
    ensures
        one ==> (pin.flags.pe matches Some(p) ==> m.at_value(pin, one).state[p as int] && m.at_value(
            pin,
            one,
        ).active),
        !one ==> (pin.flags.ne matches Some(p) ==> m.at_value(pin, one).state[p as int]
            && m.at_value(pin, one).active),
{
}

/// The times of the events never go back.
pub open spec fn times_rise(
    size: int,
    events: Seq<Event>,
    clocks: Seq<ClockFlags>,
    max_cycles: Option<usize>,
) -> bool {
    forall|i: int|
        0 <= i < events.len() ==> (#[trigger] events[i] matches Event::Timestamp(t) ==> {
            &&& read(size, events.take(i), clocks, max_cycles).time <= t
            &&& t < u64::MAX
        })
}

/// No event is read behind the one that ends the reading.
pub open spec fn ends_at_last(
    size: int,
    events: Seq<Event>,
    clocks: Seq<ClockFlags>,
    max_cycles: Option<usize>,
) -> bool {
    forall|i: int|
        0 <= i < events.len() - 1 ==> (#[trigger] events[i] matches Event::Timestamp(t)
            ==> !read(size, events.take(i), clocks, max_cycles).is_full(t, max_cycles))
}

/// The first step belongs to no time; those of the others rise.
pub open spec fn times_of_steps(m: Trace) -> bool {
    &&& m.offsets.len() > 0 ==> m.offsets[0].1 == u64::MAX
    &&& forall|j: int, k: int|
        0 < j < k < m.offsets.len() ==> (#[trigger] m.offsets[j]).1 < (#[trigger] m.offsets[k]).1
    &&& forall|k: int| 0 < k < m.offsets.len() ==> (#[trigger] m.offsets[k]).1 < u64::MAX
}

/// The time of the next step is known to lie behind those of the recorded ones.
spec fn times_ready(m: Trace) -> bool {
    &&& times_of_steps(m)
    &&& m.time < u64::MAX
    &&& m.offsets.len() == 0 <==> m.time_last_active == u64::MAX
    &&& m.offsets.len() == 0 ==> m.active
    &&& m.offsets.len() > 0 ==> m.time_last_active < m.time
    &&& forall|k: int|
        0 < k < m.offsets.len() ==> (#[trigger] m.offsets[k]).1 < m.time_last_active
}

/// After any of the events, the time of the next step lies behind those of the
/// recorded ones.
proof fn lemma_times_ready(
    size: int,
    events: Seq<Event>,
    clocks: Seq<ClockFlags>,
    max_cycles: Option<usize>,
    n: int,
)
    requires
        times_rise(size, events, clocks, max_cycles),
        ends_at_last(size, events, clocks, max_cycles),
        0 <= n < events.len() || n == 0,
    ensures
        times_ready(read(size, events.take(n), clocks, max_cycles)),
    decreases n,
{
    if n > 0 {
        lemma_times_ready(size, events, clocks, max_cycles, n - 1);
        assert(events.take(n).drop_last() =~= events.take(n - 1));
        let m = read(size, events.take(n - 1), clocks, max_cycles);
        match events[n - 1] {
            Event::Timestamp(t) => {
                assert(!m.is_full(t, max_cycles));
                assert(m.time <= t);
            },
            Event::Value(pin, one) => {},
        }
    } else {
        assert(events.take(0) =~= Seq::empty());
    }
}

/// Where the times of a dump never go back, the steps belong to times that
/// rise, but for the first step, which belongs to none.
pub proof fn steps_belong_to_rising_times(
    size: int,
    events: Seq<Event>,
    clocks: Seq<ClockFlags>,
    max_cycles: Option<usize>,
)
    requires
        times_rise(size, events, clocks, max_cycles),
        ends_at_last(size, events, clocks, max_cycles),
    ensures
        times_of_steps(read(size, events, clocks, max_cycles)),
{
    if events.len() > 0 {
        let n = events.len() - 1;
        lemma_times_ready(size, events, clocks, max_cycles, n);
        assert(events.drop_last() =~= events.take(n));
        let m = read(size, events.take(n), clocks, max_cycles);
        assert(events[n] == events.last());
    }
}

/// Reading starts with zeros at time 0, as if a clock edge had been seen there; no
/// step belongs to a time yet.
pub proof fn reading_starts_with_zeros(size: int, p: int)
    requires
        0 <= p < size * 32,
    ensures
        Trace::start(size).state.len() == size * 32,
        !Trace::start(size).state[p],
        Trace::start(size).time == 0,
        Trace::start(size).active,
        Trace::start(size).time_last_active == u64::MAX,
        Trace::start(size).states.len() == 0,
        Trace::start(size).offsets.len() == 0,
        forall|q: usize| !Trace::start(size).delayed.contains(q),
{
}

/// When the time moves on, a step is recorded exactly if a clock edge has been
/// seen since it last did: with the state as it stands, flags up and inputs as
/// they were, and with the time before the current one at which an edge was
/// seen last.  Then all flags are down, no edge has been seen, and the time of
/// the edge is known.
pub proof fn steps_are_recorded_as_the_time_moves_on(
    m: Trace,
    t: u64,
    clocks: Seq<ClockFlags>,
    max_cycles: Option<usize>,
    p: int,
)
    requires
        t != m.time,
    ensures
        ({
            let r = m.at_time(t, clocks, max_cycles);
            &&& m.active ==> {
                &&& r.states == m.states + m.state
                &&& r.offsets.len() == m.offsets.len() + 1
                &&& r.offsets.drop_last() == m.offsets
                &&& r.offsets.last().1 == m.time_last_active
                &&& r.offsets.last().0 == (m.states.len() + m.state.len()) as int / 32
                &&& 0 <= p < m.state.len() && is_flag(clocks, p) && !m.delayed.contains(p as usize)
                    && p <= usize::MAX ==> !r.state[p]
            }
            &&& !m.active ==> r.states == m.states && r.offsets == m.offsets
            &&& !m.is_full(t, max_cycles) ==> {
                &&& r.time == t
                &&& !r.active
                &&& forall|q: usize| !r.delayed.contains(q)
                &&& m.active ==> r.time_last_active == m.time
                &&& !m.active ==> r.time_last_active == m.time_last_active
            }
        }),
{
    let r = m.at_time(t, clocks, max_cycles);
    if m.active {
        assert(r.offsets.drop_last() =~= m.offsets);
    }
}

/// The same time again changes nothing.  Reading ends exactly where the time moves
/// on from one with a clock edge and its step is the last one that is wanted.
pub proof fn reading_ends_with_the_last_wanted_step(
    m: Trace,
    t: u64,
    clocks: Seq<ClockFlags>,
    max_cycles: Option<usize>,
)
    ensures
        t == m.time ==> m.at_time(t, clocks, max_cycles) == m && !m.is_full(t, max_cycles),
        max_cycles is None ==> !m.is_full(t, max_cycles),
        max_cycles matches Some(wanted) ==> (m.is_full(t, max_cycles) <==> t != m.time && m.active
            && m.at_time(t, clocks, max_cycles).offsets.len() >= wanted),
{
}

/// A value that an input already has changes nothing.  Another one waits for the
/// time to move on; it makes a step of the current time only if the input is a
/// clock with a flag for that edge, and raises no other bit than that flag.
pub proof fn only_edges_with_flags_make_steps(m: Trace, pin: InputPin, one: bool, q: usize)
    requires
        pin_in(pin, m.state.len() as int),
    ensures
        ({
            let r = m.at_value(pin, one);
            let edge = if one {
                pin.flags.pe
            } else {
                pin.flags.ne
            };
            &&& m.state[pin.pos as int] == one ==> r == m
            &&& m.state[pin.pos as int] != one ==> {
                &&& r.delayed.contains(q) <==> m.delayed.contains(q) || q == pin.pos
                &&& r.active <==> m.active || edge is Some
                &&& q < m.state.len() ==> r.state[q as int] == (m.state[q as int] || edge == Some(q))
            }
            &&& r.time == m.time
            &&& r.time_last_active == m.time_last_active
            &&& r.states == m.states
            &&& r.offsets == m.offsets
            &&& r.state.len() == m.state.len()
        }),
{
}

} // verus!
