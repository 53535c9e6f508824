//! What value changes do to the inputs of a simulated design.
use crate::inputs::{
    after_bit, after_bits, clock_at, flag_positions, missing_upto, pin_by, ClockPin, Direction,
    InputBit, InputMap, PinError, PortPin, Wiring,
};
use crate::trace::{is_flag, ClockFlags, Trace};
use vstd::prelude::*;

verus! {

/// Place `p` of a value change with code `code` stands for `pin`.
pub open spec fn stands_for(map: InputMap, code: u64, p: int, pin: usize) -> bool {
    &&& map.pins@.contains_key(code)
    &&& 0 <= p < map.pins@[code]@.len()
    &&& map.pins@[code]@[p] == Some(pin)
}

/// `pin` has position `x` in the state: its literal is not inverted, and the
/// node of the literal has that position.
pub open spec fn wired_to(wiring: Wiring, pin: usize, x: int) -> bool {
    &&& pin < wiring.pin2aigpin_iv@.len()
    &&& wiring.pin2aigpin_iv@[pin as int] % 2 == 0
    &&& wiring.input_map@.contains_key((wiring.pin2aigpin_iv@[pin as int] / 2) as usize)
    &&& wiring.input_map@[(wiring.pin2aigpin_iv@[pin as int] / 2) as usize] == x
}

/// Place `p` of a value change with code `code` sets position `x` of the state.
pub open spec fn sets(map: InputMap, wiring: Wiring, code: u64, p: int, x: int) -> bool {
    exists|pin: usize| #[trigger] stands_for(map, code, p, pin) && wired_to(wiring, pin, x)
}

/// One of the first `n` places sets position `x`.
pub open spec fn some_sets(map: InputMap, wiring: Wiring, code: u64, n: int, x: int) -> bool {
    exists|p: int| 0 <= p < n && #[trigger] sets(map, wiring, code, p, x)
}

/// The flags of the wiring are among those of the clocks.
pub open spec fn flags_known(wiring: Wiring, clocks: Seq<ClockFlags>) -> bool {
    forall|c: int, node: usize|
        0 <= c < wiring.clocks@.len() && (node == (#[trigger] wiring.clocks@[c]).pe || node
            == wiring.clocks@[c].ne) && #[trigger] wiring.input_map@.contains_key(node) ==> is_flag(
            clocks,
            wiring.input_map@[node] as int,
        )
}

/// No two of the first `n` places set the same position.
pub open spec fn sets_apart(map: InputMap, wiring: Wiring, code: u64, n: int) -> bool {
    forall|p: int, q: int, x: int|
        0 <= p < q < n && #[trigger] sets(map, wiring, code, p, x) ==> !#[trigger] sets(
            map,
            wiring,
            code,
            q,
            x,
        )
}

/// The first clock with a pin is one of the clocks.
proof fn lemma_clock_at(clocks: Seq<ClockPin>, pin: usize, i: int)
    requires
        0 <= i,
    ensures
        clock_at(clocks, pin, i) matches Some(clock) ==> clocks.contains(clock),
    decreases clocks.len() - i,
{
    if i < clocks.len() {
        if clocks[i].pin != pin {
            lemma_clock_at(clocks, pin, i + 1);
        }
    }
}

/// What a raised flag can be.
proof fn lemma_flag_raised(wiring: Wiring, clocks: Seq<ClockFlags>, pin: usize, before: bool)
    requires
        flags_known(wiring, clocks),
    ensures
        wiring.flag_raised(pin, before) matches Ok(Some(f)) ==> is_flag(clocks, f as int),
{
    lemma_clock_at(wiring.clocks@, pin, 0);
    if let Some(clock) = clock_at(wiring.clocks@, pin, 0) {
        let c = wiring.clocks@.index_of(clock);
        assert(wiring.clocks@[c] == clock);
        let node = if before {
            clock.ne
        } else {
            clock.pe
        };
        if wiring.input_map@.contains_key(node) {
            assert(is_flag(clocks, wiring.input_map@[node] as int));
        }
    }
}

/// What is known after the first `n` places of a value change.
spec fn changed(
    m: Trace,
    r: Trace,
    map: InputMap,
    wiring: Wiring,
    code: u64,
    values: Seq<u8>,
    clocks: Seq<ClockFlags>,
    n: int,
) -> bool {
    &&& r.time == m.time
    &&& r.state.len() == m.state.len()
    &&& forall|x: int|
        0 <= x < m.state.len() && !is_flag(clocks, x) ==> #[trigger] r.state[x] == m.state[x]
    &&& forall|p: int, x: usize|
        0 <= p < n && #[trigger] sets(map, wiring, code, p, x as int) && !m.delayed.contains(x)
            && !is_flag(clocks, x as int) ==> x < m.state.len() && (r.delayed.contains(x)
            <==> m.state[x as int] != (values[p] == 49u8))
    &&& forall|x: usize|
        !some_sets(map, wiring, code, n, x as int) ==> (#[trigger] r.delayed.contains(x)
            <==> m.delayed.contains(x))
}

/// What one place changes.
proof fn lemma_one_place(
    r: Trace,
    q: Trace,
    map: InputMap,
    wiring: Wiring,
    code: u64,
    values: Seq<u8>,
    clocks: Seq<ClockFlags>,
    n: int,
)
    requires
        0 <= n < values.len() <= usize::MAX,
        flags_known(wiring, clocks),
        forall|pin: usize| #[trigger]
            stands_for(map, code, n, pin) ==> pin < wiring.pin2aigpin_iv@.len(),
        (match map.pin(code, n as usize) {
            None => q == r,
            Some(pin) => (q, None::<PinError>) == after_bit(r, wiring, pin, values[n] == 49u8),
        }),
    ensures
        q.time == r.time,
        q.state.len() == r.state.len(),
        forall|x: int|
            0 <= x < r.state.len() && !is_flag(clocks, x) ==> #[trigger] q.state[x] == r.state[x],
        forall|x: usize|
            sets(map, wiring, code, n, x as int) ==> x < r.state.len() && (
            #[trigger] q.delayed.contains(x) <==> r.delayed.contains(x) || r.state[x as int] != (
            values[n] == 49u8)),
        forall|x: usize|
            !sets(map, wiring, code, n, x as int) ==> (#[trigger] q.delayed.contains(x)
                <==> r.delayed.contains(x)),
{
    if let Some(pin) = map.pin(code, n as usize) {
        assert(stands_for(map, code, n, pin));
        let one = values[n] == 49u8;
        let pos = wiring.position_of(pin)->Ok_0;
        let before = r.state[pos as int];
        lemma_flag_raised(wiring, clocks, pin, before);
        assert(wired_to(wiring, pin, pos as int));
        assert(sets(map, wiring, code, n, pos as int));
        assert forall|x: usize| sets(map, wiring, code, n, x as int) implies x == pos by {
            let other = choose|other: usize| #[trigger]
                stands_for(map, code, n, other) && wired_to(wiring, other, x as int);
            assert(other == pin);
        }
    } else {
        assert forall|x: usize| !sets(map, wiring, code, n, x as int) by {
            if sets(map, wiring, code, n, x as int) {
                let other = choose|other: usize| #[trigger]
                    stands_for(map, code, n, other) && wired_to(wiring, other, x as int);
                assert(map.pin(code, n as usize) == Some(other));
            }
        }
    }
}

/// The places of a value change set their positions one after the other.
proof fn lemma_changed(
    m: Trace,
    map: InputMap,
    wiring: Wiring,
    code: u64,
    values: Seq<u8>,
    clocks: Seq<ClockFlags>,
    n: int,
)
    requires
        0 <= n <= values.len() <= usize::MAX,
        flags_known(wiring, clocks),
        sets_apart(map, wiring, code, values.len() as int),
        forall|p: int, pin: usize|
            0 <= p < values.len() && #[trigger] stands_for(map, code, p, pin) ==> pin
                < wiring.pin2aigpin_iv@.len(),
        after_bits(m, map, wiring, code, values, n).1 is None,
    ensures
        changed(
            m,
            after_bits(m, map, wiring, code, values, n).0,
            map,
            wiring,
            code,
            values,
            clocks,
            n,
        ),
    decreases n,
{
    if n > 0 {
        lemma_changed(m, map, wiring, code, values, clocks, n - 1);
        let r = after_bits(m, map, wiring, code, values, n - 1).0;
        let q = after_bits(m, map, wiring, code, values, n).0;
        assert('1' as u8 == 49u8);
        lemma_one_place(r, q, map, wiring, code, values, clocks, n - 1);
        assert forall|x: int| 0 <= x < m.state.len() && !is_flag(clocks, x) implies
            #[trigger] q.state[x] == m.state[x] by {
            assert(r.state[x] == m.state[x]);
        }
        assert forall|p: int, x: usize|
            0 <= p < n && #[trigger] sets(map, wiring, code, p, x as int) && !m.delayed.contains(x)
                && !is_flag(clocks, x as int) implies x < m.state.len() && (
        q.delayed.contains(x) <==> m.state[x as int] != (values[p] == 49u8)) by {
            if p < n - 1 {
                assert(!sets(map, wiring, code, n - 1, x as int));
                assert(r.delayed.contains(x) <==> m.state[x as int] != (values[p] == 49u8));
                assert(q.delayed.contains(x) <==> r.delayed.contains(x));
            } else {
                assert(!some_sets(map, wiring, code, n - 1, x as int)) by {
                    if some_sets(map, wiring, code, n - 1, x as int) {
                        let o = choose|o: int|
                            0 <= o < n - 1 && #[trigger] sets(map, wiring, code, o, x as int);
                        assert(!sets(map, wiring, code, n - 1, x as int));
                    }
                }
                assert(r.delayed.contains(x) <==> m.delayed.contains(x));
                assert(q.delayed.contains(x) <==> r.delayed.contains(x) || r.state[x as int] != (
                values[n - 1] == 49u8));
                assert(r.state[x as int] == m.state[x as int]);
            }
        }
        assert forall|x: usize| !some_sets(map, wiring, code, n, x as int) implies (
        #[trigger] q.delayed.contains(x) <==> m.delayed.contains(x)) by {
            assert(!sets(map, wiring, code, n - 1, x as int));
            assert(!some_sets(map, wiring, code, n - 1, x as int)) by {
                if some_sets(map, wiring, code, n - 1, x as int) {
                    let o = choose|o: int|
                        0 <= o < n - 1 && #[trigger] sets(map, wiring, code, o, x as int);
                    assert(sets(map, wiring, code, o, x as int));
                }
            }
            assert(r.delayed.contains(x) <==> m.delayed.contains(x));
            assert(some_sets(map, wiring, code, n, x as int) <== sets(
                map,
                wiring,
                code,
                n - 1,
                x as int,
            ));
            assert(q.delayed.contains(x) <==> r.delayed.contains(x));
        }
    }
}

/// When the time moves on behind a value change, every input that a place of the
/// change stands for is one exactly if the character at that place is `1`, and
/// the inputs that no place stands for keep their values.  That holds of inputs
/// that were not given a value at the same time before, where no two places
/// stand for the same input.
pub proof fn value_changes_set_their_inputs(
    m: Trace,
    r: Trace,
    map: InputMap,
    wiring: Wiring,
    code: u64,
    values: Seq<u8>,
    t: u64,
    clocks: Seq<ClockFlags>,
    max_cycles: Option<usize>,
)
    requires
        values.len() <= usize::MAX,
        flags_known(wiring, clocks),
        sets_apart(map, wiring, code, values.len() as int),
        forall|p: int, pin: usize|
            0 <= p < values.len() && #[trigger] stands_for(map, code, p, pin) ==> pin
                < wiring.pin2aigpin_iv@.len(),
        after_bits(m, map, wiring, code, values, values.len() as int).1 is None,
        t != m.time,
        !after_bits(m, map, wiring, code, values, values.len() as int).0.is_full(t, max_cycles),
        r == after_bits(m, map, wiring, code, values, values.len() as int).0.at_time(
            t,
            clocks,
            max_cycles,
        ),
    ensures
        forall|p: int, x: usize|
            0 <= p < values.len() && #[trigger] sets(map, wiring, code, p, x as int)
                && !m.delayed.contains(x) && !is_flag(clocks, x as int) ==> x < m.state.len() && (
            r.state[x as int] <==> values[p] == 49u8),
        forall|x: usize|
            x < m.state.len() && !some_sets(map, wiring, code, values.len() as int, x as int)
                && !m.delayed.contains(x) && !is_flag(clocks, x as int)
                ==> #[trigger] r.state[x as int] == m.state[x as int],
{
    let n = values.len() as int;
    lemma_changed(m, map, wiring, code, values, clocks, n);
    let q = after_bits(m, map, wiring, code, values, n).0;
    let s = q.settled(clocks);
    assert forall|x: usize| x < m.state.len() && !is_flag(clocks, x as int) implies
        #[trigger] r.state[x as int] == (m.state[x as int] != q.delayed.contains(x)) by {
        assert(q.state[x as int] == m.state[x as int]);
        assert(s.state[x as int] == q.state[x as int]);
    }
    assert forall|p: int, x: usize|
        0 <= p < values.len() && #[trigger] sets(map, wiring, code, p, x as int)
            && !m.delayed.contains(x) && !is_flag(clocks, x as int) implies x < m.state.len() && (
    r.state[x as int] <==> values[p] == 49u8) by {
        assert(q.delayed.contains(x) <==> m.state[x as int] != (values[p] == 49u8));
    }
    assert forall|x: usize|
        x < m.state.len() && !some_sets(map, wiring, code, n, x as int) && !m.delayed.contains(x)
            && !is_flag(clocks, x as int) implies #[trigger] r.state[x as int]
        == m.state[x as int] by {
        assert(q.delayed.contains(x) <==> m.delayed.contains(x));
        assert(r.state[x as int] == (m.state[x as int] != q.delayed.contains(x)));
    }
}

/// Clock `c` is the first one with `pin`.
pub open spec fn is_clock(wiring: Wiring, pin: usize, c: int) -> bool {
    &&& 0 <= c < wiring.clocks@.len()
    &&& wiring.clocks@[c].pin == pin
    &&& forall|b: int| 0 <= b < c ==> (#[trigger] wiring.clocks@[b]).pin != pin
}

/// The first clock with a pin is found.
proof fn lemma_first_clock(clocks: Seq<ClockPin>, pin: usize, i: int, c: int)
    requires
        0 <= i <= c < clocks.len(),
        clocks[c].pin == pin,
        forall|b: int| i <= b < c ==> (#[trigger] clocks[b]).pin != pin,
    ensures
        clock_at(clocks, pin, i) == Some(clocks[c]),
    decreases c - i,
{
    if i < c {
        assert(clocks[i].pin != pin);
        lemma_first_clock(clocks, pin, i + 1, c);
    }
}

/// Without a clock none is found.
proof fn lemma_no_clock(clocks: Seq<ClockPin>, pin: usize, i: int)
    requires
        0 <= i,
        forall|b: int| i <= b < clocks.len() ==> (#[trigger] clocks[b]).pin != pin,
    ensures
        clock_at(clocks, pin, i) is None,
    decreases clocks.len() - i,
{
    if i < clocks.len() {
        assert(clocks[i].pin != pin);
        lemma_no_clock(clocks, pin, i + 1);
    }
}

/// A rising edge of a clock raises the flag at the position of its node for that
/// edge, a falling one that of the other; the time then has a step.  A clock
/// without such a node, and a pin that is no clock, raise none.
pub proof fn clock_edges_raise_the_flags_of_their_nodes(
    m: Trace,
    wiring: Wiring,
    pin: usize,
    one: bool,
    x: int,
    c: int,
    f: int,
)
    requires
        wired_to(wiring, pin, x),
        0 <= x < m.state.len(),
        m.state[x] != one,
    ensures
        ({
            let (r, failed) = after_bit(m, wiring, pin, one);
            let node = if one {
                wiring.clocks@[c].pe
            } else {
                wiring.clocks@[c].ne
            };
            &&& is_clock(wiring, pin, c) && node != usize::MAX && wiring.input_map@.contains_key(
                node,
            ) && wiring.input_map@[node] == f && f < m.state.len() ==> {
                &&& failed is None
                &&& r.active
                &&& forall|q: int|
                    0 <= q < m.state.len() ==> #[trigger] r.state[q] == (m.state[q] || q == f)
            }
            &&& is_clock(wiring, pin, c) && node == usize::MAX ==> failed is None && r.active
                == m.active && r.state == m.state
            &&& is_clock(wiring, pin, c) && node != usize::MAX && !wiring.input_map@.contains_key(
                node,
            ) ==> failed == Some(PinError::UnmappedFlag(node)) && r == m
            &&& (forall|b: int|
                0 <= b < wiring.clocks@.len() ==> (#[trigger] wiring.clocks@[b]).pin != pin)
                ==> failed is None && r.active == m.active && r.state == m.state
        }),
{
    if is_clock(wiring, pin, c) {
        lemma_first_clock(wiring.clocks@, pin, 0, c);
    }
    if forall|b: int| 0 <= b < wiring.clocks@.len() ==> (#[trigger] wiring.clocks@[b]).pin != pin {
        lemma_no_clock(wiring.clocks@, pin, 0);
    }
}

/// Why an input cannot be set.  An inverted literal is refused, then a node without
/// a position, then a position behind the end of the state; a value that the
/// input already has is not refused for the flags of its clock.
pub proof fn inputs_are_refused_for_their_wiring(m: Trace, wiring: Wiring, pin: usize, one: bool)
    requires
        pin < wiring.pin2aigpin_iv@.len(),
    ensures
        ({
            let lit = wiring.pin2aigpin_iv@[pin as int];
            let node = (lit / 2) as usize;
            let (r, failed) = after_bit(m, wiring, pin, one);
            &&& failed is Some ==> r == m
            &&& lit % 2 == 1 ==> failed == Some(PinError::Inverted(lit))
            &&& lit % 2 == 0 && !wiring.input_map@.contains_key(node) ==> failed == Some(
                PinError::Unmapped(node),
            )
            &&& lit % 2 == 0 && wiring.input_map@.contains_key(node) && wiring.input_map@[node]
                >= m.state.len() ==> failed == Some(PinError::OutOfState(pin))
            &&& lit % 2 == 0 && wiring.input_map@.contains_key(node) && wiring.input_map@[node]
                < m.state.len() && m.state[wiring.input_map@[node] as int] == one ==> failed is None
                && r == m
        }),
{
}

/// A place of a value change sets the pin that the last bit with its code and
/// place is found to be, among the bits that stand for inputs of the design;
/// without such a bit it sets none.
pub proof fn the_last_bit_decides_which_pin_is_set(
    bits: Seq<InputBit>,
    found: Seq<Option<PortPin>>,
    n: int,
    code: u64,
    pos: usize,
    i: int,
    pin: usize,
)
    requires
        0 <= n <= bits.len() == found.len(),
        -1 <= i < n,
        i >= 0 ==> bits[i].code == code && bits[i].pos == pos && found[i] == Some(
            PortPin { pin, direction: Direction::O },
        ),
        forall|j: int|
            i < j < n ==> !(bits[j].code == code && bits[j].pos == pos && (
            #[trigger] found[j] matches Some(p) && p.direction == Direction::O)),
    ensures
        pin_by(bits, found, n, code, pos) == if i >= 0 {
            Some(pin)
        } else {
            None
        },
    decreases n,
{
    if n > i + 1 {
        assert(!(bits[n - 1].code == code && bits[n - 1].pos == pos && (
        found[n - 1] matches Some(p) && p.direction == Direction::O)));
        the_last_bit_decides_which_pin_is_set(bits, found, n - 1, code, pos, i, pin);
    }
}

/// The ports that a dump leaves without a value are those that are inputs of the
/// design, or whose direction is not known, and that it does not set, in their
/// order.
pub proof fn missing_ports_are_inputs_that_are_not_set(
    ports: Seq<PortPin>,
    given: Set<usize>,
    n: int,
)
    requires
        0 <= n <= ports.len(),
    ensures
        missing_upto(ports, given, n) == ports.take(n).filter(
            |p: PortPin|
                (p.direction == Direction::O || p.direction == Direction::Unknown)
                    && !given.contains(p.pin),
        ).map_values(|p: PortPin| p.pin),
    decreases n,
{
    reveal(Seq::filter);
    let q = |p: PortPin|
        (p.direction == Direction::O || p.direction == Direction::Unknown) && !given.contains(
            p.pin,
        );
    let f = |p: PortPin| p.pin;
    if n > 0 {
        missing_ports_are_inputs_that_are_not_set(ports, given, n - 1);
        assert(ports.take(n).drop_last() =~= ports.take(n - 1));
        let s = ports.take(n - 1).filter(q);
        if q(ports[n - 1]) {
            assert(s.push(ports[n - 1]).map_values(f) =~= s.map_values(f).push(ports[n - 1].pin));
        }
    } else {
        assert(ports.take(0) =~= Seq::empty());
        assert(Seq::<PortPin>::empty().map_values(f) =~= Seq::empty());
    }
}

/// The flags of a clock are at the positions of its nodes, where it has them.
pub proof fn flags_are_at_the_positions_of_their_nodes(input_map: Map<usize, u32>, clock: ClockPin)
    requires
        clock.pe == usize::MAX || input_map.contains_key(clock.pe),
        clock.ne == usize::MAX || input_map.contains_key(clock.ne),
    ensures
        flag_positions(input_map, clock) matches Ok(f) && {
            &&& clock.pe == usize::MAX <==> f.pe is None
            &&& clock.ne == usize::MAX <==> f.ne is None
            &&& clock.pe != usize::MAX ==> f.pe.unwrap() == input_map[clock.pe]
            &&& clock.ne != usize::MAX ==> f.ne.unwrap() == input_map[clock.ne]
        },
{
}

/// The flags of a clock are known exactly where each of its nodes has a position; of
/// two nodes without one, that of the rising edge is named.
pub proof fn nodes_without_a_position_are_named(input_map: Map<usize, u32>, clock: ClockPin)
    ensures
        flag_positions(input_map, clock) is Ok <==> (clock.pe == usize::MAX
            || input_map.contains_key(clock.pe)) && (clock.ne == usize::MAX
            || input_map.contains_key(clock.ne)),
        clock.pe != usize::MAX && !input_map.contains_key(clock.pe) ==> flag_positions(
            input_map,
            clock,
        ) == Err::<ClockFlags, PinError>(PinError::UnmappedFlag(clock.pe)),
        flag_positions(input_map, clock) is Err && (clock.pe == usize::MAX
            || input_map.contains_key(clock.pe)) ==> flag_positions(input_map, clock) == Err::<
            ClockFlags,
            PinError,
        >(PinError::UnmappedFlag(clock.ne)),
{
}

/// The first place whose pin cannot be set ends a value change with its error; the
/// places in front of it have been set, and those behind it are not looked at.
pub proof fn the_first_failure_ends_a_change(
    m: Trace,
    map: InputMap,
    wiring: Wiring,
    code: u64,
    values: Seq<u8>,
    p: int,
    pin: usize,
    n: int,
)
    requires
        0 <= p < n <= values.len() <= usize::MAX,
        stands_for(map, code, p, pin),
        after_bits(m, map, wiring, code, values, p).1 is None,
    ensures
        ({
            let before = after_bits(m, map, wiring, code, values, p).0;
            let (after, failed) = after_bit(before, wiring, pin, values[p] == 49u8);
            &&& after_bits(m, map, wiring, code, values, p + 1) == (after, failed)
            &&& failed is Some ==> after_bits(m, map, wiring, code, values, n) == (after, failed)
        }),
    decreases n,
{
    assert('1' as u8 == 49u8);
    assert(map.pin(code, p as usize) == Some(pin));
    if n > p + 1 {
        the_first_failure_ends_a_change(m, map, wiring, code, values, p, pin, n - 1);
    }
}

/// A place that stands for no input changes nothing.
pub proof fn places_without_inputs_change_nothing(
    m: Trace,
    map: InputMap,
    wiring: Wiring,
    code: u64,
    values: Seq<u8>,
    p: int,
)
    requires
        0 <= p < values.len() <= usize::MAX,
        forall|pin: usize| !stands_for(map, code, p, pin),
    ensures
        after_bits(m, map, wiring, code, values, p + 1) == after_bits(
            m,
            map,
            wiring,
            code,
            values,
            p,
        ),
{
    if let Some(pin) = map.pin(code, p as usize) {
        assert(stands_for(map, code, p, pin));
    }
}

} // verus!
