//! From the variables of a dump to the inputs of a simulated design.
use crate::aig::node_of;
use crate::trace::{ClockFlags, InputPin, InputTrace, Trace};
use crate::vcd::{
    bit_indices, bits_are, list_bits, range_fits, ReferenceIndex, Scope, ScopeItem, VarBit,
};
use crate::words::get_bit;
use std::collections::HashMap;
use std::collections::HashSet;
use vstd::prelude::*;

verus! {

/// One bit of a variable in a scope: the code of its variable, the place of
/// that among the items of the scope, the index of the bit in its signal, if it
/// has one, and its place in a value change.
#[derive(Clone, Copy, Debug, PartialEq, Eq, Structural)]
pub struct InputBit {
    pub code: u64,
    pub item: usize,
    pub index: Option<isize>,
    pub pos: usize,
}

/// A bit has the index that it is given.
pub open spec fn has_index(index: Option<isize>, want: Option<int>) -> bool {
    match index {
        Some(x) => want == Some(x as int),
        None => want is None,
    }
}

/// How many bits the first `n` items of a scope have.
pub open spec fn num_bits(items: Seq<ScopeItem>, n: int) -> nat
    decreases n,
{
    if n <= 0 {
        0
    } else {
        num_bits(items, n - 1) + (match items[n - 1] {
            ScopeItem::Var(var) => bit_indices(var.size, var.index).len(),
            _ => 0,
        })
    }
}

/// `bits` are those of the variables among the first `n` items of a scope,
/// variable after variable, each in the order of a value change.
pub open spec fn lists(bits: Seq<InputBit>, items: Seq<ScopeItem>, n: int) -> bool {
    &&& bits.len() == num_bits(items, n)
    &&& forall|m: int, i: int|
        0 <= m < n && (items[m] matches ScopeItem::Var(var) && 0 <= i < bit_indices(
            var.size,
            var.index,
        ).len()) ==> is_bit(#[trigger] bits[num_bits(items, m) + i], items, m, i)
}

/// A bit is bit `i` of the variable at item `m`.
pub open spec fn is_bit(b: InputBit, items: Seq<ScopeItem>, m: int, i: int) -> bool {
    &&& items[m] matches ScopeItem::Var(var)
    &&& b.code == var.code
    &&& b.item == m
    &&& b.pos == i
    &&& has_index(b.index, bit_indices(var.size, var.index)[i])
}

/// The bits of all variables can be listed.
pub open spec fn listable(items: Seq<ScopeItem>) -> bool {
    forall|m: int|
        0 <= m < items.len() ==> (#[trigger] items[m] matches ScopeItem::Var(var) ==> {
            &&& var.index is None ==> var.size <= isize::MAX
            &&& var.index matches Some(ReferenceIndex::Range(a, b)) ==> range_fits(
                a as int,
                b as int,
            )
        })
}

/// Items further on come behind.
proof fn lemma_num_bits(items: Seq<ScopeItem>, m: int, n: int)
    requires
        0 <= m <= n,
    ensures
        num_bits(items, m) <= num_bits(items, n),
    decreases n,
{
    if m < n {
        lemma_num_bits(items, m, n - 1);
    }
}

/// Lists the bits of the variables of a scope.
pub fn list_inputs(scope: &Scope) -> (bits: Vec<InputBit>)
    requires
        listable(scope.children@),
    ensures
        lists(bits@, scope.children@, scope.children@.len() as int),
{
    let mut bits: Vec<InputBit> = Vec::new();
    let ghost items = scope.children@;
    for n in 0..scope.children.len()
        invariant
            items == scope.children@,
            listable(items),
            lists(bits@, items, n as int),
    {
        let ghost before = bits@;
        if let ScopeItem::Var(var) = &scope.children[n] {
            let var_bits: Vec<VarBit> = list_bits(var.size, var.index);
            let ghost want = bit_indices(var.size, var.index);
            for i in 0..var_bits.len()
                invariant
                    bits_are(var_bits@, want),
                    want == bit_indices(var.size, var.index),
                    bits@.len() == before.len() + i,
                    forall|k: int| 0 <= k < before.len() ==> #[trigger] bits@[k] == before[k],
                    forall|k: int|
                        0 <= k < i ==> ({
                            let b = #[trigger] bits@[before.len() + k];
                            b.code == var.code && b.item == n && b.pos == k && has_index(
                                b.index,
                                want[k],
                            )
                        }),
            {
                let bit: VarBit = var_bits[i];
                bits.push(InputBit { code: var.code, item: n, index: bit.index, pos: bit.pos });
            }
            assert forall|m: int, i: int|
                0 <= m < n + 1 && (items[m] matches ScopeItem::Var(v) && 0 <= i < bit_indices(
                    v.size,
                    v.index,
                ).len()) implies is_bit(#[trigger] bits@[num_bits(items, m) + i], items, m, i) by {
                if m < n {
                    lemma_num_bits(items, m + 1, n as int);
                    assert(is_bit(before[num_bits(items, m) + i], items, m, i));
                } else {
                    assert(before.len() == num_bits(items, m));
                    assert(bits@[before.len() + i].pos == i);
                }
            }
        }
    }
    bits
}

/// Which way a pin goes, seen from its cell.
#[derive(Clone, Copy, Debug, PartialEq, Eq, Structural)]
pub enum Direction {
    I,
    O,
    Unknown,
}

/// A pin of the design and its direction.
#[derive(Clone, Copy, Debug, PartialEq, Eq, Structural)]
pub struct PortPin {
    pub pin: usize,
    pub direction: Direction,
}

/// A bit stands for an input of the design.
pub open spec fn is_input(found: Option<PortPin>) -> bool {
    found matches Some(p) && p.direction == Direction::O
}

/// The pin that a bit of a value change sets, by the first `n` bits: the last of
/// them with its code and place that stands for an input.
pub open spec fn pin_by(
    bits: Seq<InputBit>,
    found: Seq<Option<PortPin>>,
    n: int,
    code: u64,
    pos: usize,
) -> Option<usize>
    decreases n,
{
    if n <= 0 {
        None
    } else if is_input(found[n - 1]) && bits[n - 1].code == code && bits[n - 1].pos == pos {
        Some(found[n - 1]->0.pin)
    } else {
        pin_by(bits, found, n - 1, code, pos)
    }
}

/// A pin is given a value by one of the first `n` bits.
pub open spec fn is_given(found: Seq<Option<PortPin>>, n: int, pin: usize) -> bool {
    exists|i: int| 0 <= i < n && is_input(#[trigger] found[i]) && found[i]->0.pin == pin
}

/// The inputs that a dump sets.
pub struct InputMap {
    /// For each code, the pins by the places in a value change.
    pub pins: HashMap<u64, Vec<Option<usize>>>,
    /// All pins.
    pub given: HashSet<usize>,
}

/// The entry of a list at a place that may lie behind its end.
pub open spec fn entry(v: Seq<Option<usize>>, pos: int) -> Option<usize> {
    if pos < v.len() {
        v[pos]
    } else {
        None
    }
}

impl InputMap {
    /// The pin that a bit of a value change sets.
    pub open spec fn pin(self, code: u64, pos: usize) -> Option<usize> {
        if self.pins@.dom().contains(code) {
            entry(self.pins@[code]@, pos as int)
        } else {
            None
        }
    }

    /// Collects the inputs that a dump sets.  `found` holds the pin of the
    /// design that each bit is named after.
    pub fn new(bits: &Vec<InputBit>, found: &Vec<Option<PortPin>>) -> (r: InputMap)
        requires
            bits@.len() == found@.len(),
            forall|i: int| 0 <= i < bits@.len() ==> (#[trigger] bits@[i]).pos < usize::MAX,
        ensures
            forall|code: u64, pos: usize| #[trigger]
                r.pin(code, pos) == pin_by(bits@, found@, bits@.len() as int, code, pos),
            forall|pin: usize| #[trigger]
                r.given@.contains(pin) <==> is_given(found@, found@.len() as int, pin),
    {
        broadcast use vstd::std_specs::hash::group_hash_axioms;

        let mut r = InputMap { pins: HashMap::new(), given: HashSet::new() };
        for n in 0..bits.len()
            invariant
                bits@.len() == found@.len(),
                forall|i: int| 0 <= i < bits@.len() ==> (#[trigger] bits@[i]).pos < usize::MAX,
                forall|code: u64, pos: usize| #[trigger]
                    r.pin(code, pos) == pin_by(bits@, found@, n as int, code, pos),
                forall|pin: usize| #[trigger]
                    r.given@.contains(pin) <==> is_given(found@, n as int, pin),
        {
            let ghost before = r;
            let bit: InputBit = bits[n];
            let mut set: Option<usize> = None;
            if let Some(port) = found[n] {
                if port.direction == Direction::O {
                    set = Some(port.pin);
                    r.given.insert(port.pin);
                    r.insert(bit.code, bit.pos, port.pin);
                }
            }
            proof {
                assert forall|pin: usize| #[trigger]
                    r.given@.contains(pin) <==> is_given(found@, n + 1, pin) by {
                    assert(before.given@.contains(pin) <==> is_given(found@, n as int, pin));
                    if is_given(found@, n + 1, pin) {
                        let i = choose|i: int|
                            0 <= i < n + 1 && is_input(#[trigger] found@[i]) && found@[i]->0.pin
                                == pin;
                        if i < n {
                            assert(is_given(found@, n as int, pin));
                        }
                    }
                    if set == Some(pin) {
                        assert(is_input(found@[n as int]));
                    }
                    if is_given(found@, n as int, pin) {
                        let i = choose|i: int|
                            0 <= i < n && is_input(#[trigger] found@[i]) && found@[i]->0.pin == pin;
                        assert(is_input(found@[i]));
                    }
                }
                assert forall|code: u64, pos: usize| #[trigger]
                    r.pin(code, pos) == pin_by(bits@, found@, n + 1, code, pos) by {
                    assert(before.pin(code, pos) == pin_by(bits@, found@, n as int, code, pos));
                }
            }
        }
        r
    }

    /// Lets a bit of a value change set a pin.
    fn insert(&mut self, code: u64, pos: usize, pin: usize)
        requires
            pos < usize::MAX,
        ensures
            final(self).given == old(self).given,
            forall|c: u64, p: usize| #[trigger]
                final(self).pin(c, p) == (if c == code && p == pos {
                    Some(pin)
                } else {
                    old(self).pin(c, p)
                }),
    {
        broadcast use vstd::std_specs::hash::group_hash_axioms;

        let ghost start = *self;
        let mut places: Vec<Option<usize>> = match self.pins.remove(&code) {
            Some(places) => places,
            None => Vec::new(),
        };
        let ghost was = places@;
        assert forall|p: usize| entry(was, p as int) == #[trigger] start.pin(code, p) by {}
        while places.len() <= pos
            invariant
                pos < usize::MAX,
                forall|p: int| 0 <= p ==> #[trigger] entry(places@, p) == entry(was, p),
            decreases pos + 1 - places@.len(),
        {
            let ghost shorter = places@;
            places.push(None);
            assert forall|p: int| 0 <= p implies #[trigger] entry(places@, p) == entry(was, p) by {
                assert(entry(shorter, p) == entry(was, p));
            }
        }
        let ghost longer = places@;
        places.set(pos, Some(pin));
        let ghost now = places@;
        self.pins.insert(code, places);
        assert forall|c: u64, p: usize| #[trigger]
            self.pin(c, p) == (if c == code && p == pos {
                Some(pin)
            } else {
                start.pin(c, p)
            }) by {
            assert(entry(longer, p as int) == entry(was, p as int));
            if c == code {
                assert(entry(was, p as int) == start.pin(code, p));
            }
        }
    }

    /// The pin that a bit of a value change sets.
    pub fn get(&self, code: u64, pos: usize) -> (r: Option<usize>)
        ensures
            r == self.pin(code, pos),
    {
        broadcast use vstd::std_specs::hash::group_hash_axioms;

        match self.pins.get(&code) {
            Some(places) => if pos < places.len() {
                places[pos]
            } else {
                None
            },
            None => None,
        }
    }

    /// The ports of the design that are no outputs of it and that the dump
    /// does not set.
    pub fn missing(&self, ports: &Vec<PortPin>) -> (pins: Vec<usize>)
        ensures
            pins@ == missing_upto(ports@, self.given@, ports@.len() as int),
    {
        broadcast use vstd::std_specs::hash::group_hash_axioms;

        let mut pins: Vec<usize> = Vec::new();
        for n in 0..ports.len()
            invariant
                pins@ == missing_upto(ports@, self.given@, n as int),
        {
            let port: PortPin = ports[n];
            if port.direction != Direction::I && !self.given.contains(&port.pin) {
                pins.push(port.pin);
            }
        }
        pins
    }
}

/// The ports among the first `n` that are no outputs of the design and that are
/// not set.
pub open spec fn missing_upto(ports: Seq<PortPin>, given: Set<usize>, n: int) -> Seq<usize>
    decreases n,
{
    if n <= 0 {
        Seq::empty()
    } else if ports[n - 1].direction != Direction::I && !given.contains(ports[n - 1].pin) {
        missing_upto(ports, given, n - 1).push(ports[n - 1].pin)
    } else {
        missing_upto(ports, given, n - 1)
    }
}

/// A clock: its pin and the nodes of its flags, `usize::MAX` for none.
#[derive(Clone, Copy, Debug, PartialEq, Eq, Structural)]
pub struct ClockPin {
    pub pin: usize,
    pub pe: usize,
    pub ne: usize,
}

/// Why an input cannot be set.
#[derive(Clone, Copy, Debug, PartialEq, Eq, Structural)]
pub enum PinError {
    /// The literal of the pin is inverted.
    Inverted(usize),
    /// The node of the pin has no position in the state.
    Unmapped(usize),
    /// The node of a flag has no position in the state.
    UnmappedFlag(usize),
    /// A position lies behind the end of the state.
    OutOfState(usize),
}

/// How the inputs of a design are wired to its state.
pub struct Wiring {
    /// The literals of the pins.
    pub pin2aigpin_iv: Vec<usize>,
    /// The positions of nodes in the state.
    pub input_map: HashMap<usize, u32>,
    pub clocks: Vec<ClockPin>,
}

/// The position of the flag of a clock.
pub open spec fn flag_position(input_map: Map<usize, u32>, node: usize) -> Result<
    Option<usize>,
    PinError,
> {
    if node == usize::MAX {
        Ok(None)
    } else if input_map.dom().contains(node) {
        Ok(Some(input_map[node] as usize))
    } else {
        Err(PinError::UnmappedFlag(node))
    }
}

/// The positions of the flags of a clock.
pub open spec fn flag_positions(input_map: Map<usize, u32>, clock: ClockPin) -> Result<
    ClockFlags,
    PinError,
> {
    match (flag_position(input_map, clock.pe), flag_position(input_map, clock.ne)) {
        (Err(e), _) => Err(e),
        (_, Err(e)) => Err(e),
        (Ok(pe), Ok(ne)) => Ok(ClockFlags { pe, ne }),
    }
}

/// The first clock from `i` on with a pin.
pub open spec fn clock_at(clocks: Seq<ClockPin>, pin: usize, i: int) -> Option<ClockPin>
    decreases clocks.len() - i,
{
    if i < 0 || i >= clocks.len() {
        None
    } else if clocks[i].pin == pin {
        Some(clocks[i])
    } else {
        clock_at(clocks, pin, i + 1)
    }
}

impl Wiring {
    /// The position of a pin in the state.
    pub open spec fn position_of(self, pin: usize) -> Result<usize, PinError> {
        let lit = self.pin2aigpin_iv@[pin as int];
        let node = (lit / 2) as usize;
        if lit % 2 == 1 {
            Err(PinError::Inverted(lit))
        } else if !self.input_map@.dom().contains(node) {
            Err(PinError::Unmapped(node))
        } else {
            Ok(self.input_map@[node] as usize)
        }
    }

    /// The position of the flag that is raised when a pin changes, where the
    /// pin is a clock and has a flag for that edge: the falling edge if the
    /// pin was one before, and the rising edge otherwise.
    pub open spec fn flag_raised(self, pin: usize, before: bool) -> Result<
        Option<usize>,
        PinError,
    > {
        match clock_at(self.clocks@, pin, 0) {
            None => Ok(None),
            Some(clock) => flag_position(
                self.input_map@,
                if before {
                    clock.ne
                } else {
                    clock.pe
                },
            ),
        }
    }

    /// Finds the position of the flag of a clock.
    fn flag(&self, node: usize) -> (r: Result<Option<usize>, PinError>)
        ensures
            r == flag_position(self.input_map@, node),
    {
        broadcast use vstd::std_specs::hash::group_hash_axioms;

        if node == usize::MAX {
            return Ok(None);
        }
        match self.input_map.get(&node) {
            Some(pos) => Ok(Some(*pos as usize)),
            None => Err(PinError::UnmappedFlag(node)),
        }
    }

    /// Finds the positions of the flags of a clock.
    fn flags(&self, clock: ClockPin) -> (r: Result<ClockFlags, PinError>)
        ensures
            r == flag_positions(self.input_map@, clock),
    {
        match self.flag(clock.pe) {
            Err(e) => Err(e),
            Ok(pe) => match self.flag(clock.ne) {
                Err(e) => Err(e),
                Ok(ne) => Ok(ClockFlags { pe, ne }),
            },
        }
    }

    /// Finds the positions of the flags of all clocks, or says which is the
    /// first that has none.
    pub fn clock_flags(&self) -> (r: Result<Vec<ClockFlags>, PinError>)
        ensures
            match r {
                Ok(flags) => {
                    &&& flags@.len() == self.clocks@.len()
                    &&& forall|c: int|
                        0 <= c < flags@.len() ==> flag_positions(
                            self.input_map@,
                            self.clocks@[c],
                        ) == Ok::<ClockFlags, PinError>(#[trigger] flags@[c])
                },
                Err(e) => exists|c: int|
                    #![trigger self.clocks@[c]]
                    0 <= c < self.clocks@.len() && flag_positions(self.input_map@, self.clocks@[c])
                        == Err::<ClockFlags, PinError>(e) && forall|b: int|
                        0 <= b < c ==> flag_positions(
                            self.input_map@,
                            #[trigger] self.clocks@[b],
                        ) is Ok,
            },
    {
        let mut all: Vec<ClockFlags> = Vec::new();
        for c in 0..self.clocks.len()
            invariant
                all@.len() == c,
                forall|b: int|
                    0 <= b < c ==> flag_positions(self.input_map@, self.clocks@[b]) == Ok::<
                        ClockFlags,
                        PinError,
                    >(#[trigger] all@[b]),
        {
            match self.flags(self.clocks[c]) {
                Ok(flags) => {
                    all.push(flags);
                },
                Err(e) => {
                    assert forall|b: int| 0 <= b < c implies flag_positions(
                        self.input_map@,
                        #[trigger] self.clocks@[b],
                    ) is Ok by {
                        assert(flag_positions(self.input_map@, self.clocks@[b]) == Ok::<
                            ClockFlags,
                            PinError,
                        >(all@[b]));
                    }
                    assert(flag_positions(self.input_map@, self.clocks@[c as int]) == Err::<
                        ClockFlags,
                        PinError,
                    >(e));
                    return Err(e);
                },
            }
        }
        Ok(all)
    }

    /// Finds the position of a pin in the state.
    pub fn position(&self, pin: usize) -> (r: Result<usize, PinError>)
        requires
            pin < self.pin2aigpin_iv@.len(),
        ensures
            r == self.position_of(pin),
    {
        broadcast use vstd::std_specs::hash::group_hash_axioms;

        let lit: usize = self.pin2aigpin_iv[pin];
        if lit % 2 == 1 {
            return Err(PinError::Inverted(lit));
        }
        let node: usize = node_of(lit);
        match self.input_map.get(&node) {
            Some(pos) => Ok(*pos as usize),
            None => Err(PinError::Unmapped(node)),
        }
    }

    /// Finds the position of the flag that is raised when a pin changes.
    pub fn edge_flag(&self, pin: usize, before: bool) -> (r: Result<Option<usize>, PinError>)
        ensures
            r == self.flag_raised(pin, before),
    {
        let mut i: usize = 0;
        while i < self.clocks.len()
            invariant
                i <= self.clocks@.len(),
                clock_at(self.clocks@, pin, 0) == clock_at(self.clocks@, pin, i as int),
            decreases self.clocks@.len() - i,
        {
            let clock: ClockPin = self.clocks[i];
            if clock.pin == pin {
                return self.flag(
                    if before {
                        clock.ne
                    } else {
                        clock.pe
                    },
                );
            }
            i += 1;
        }
        Ok(None)
    }
}

/// The trace after a pin was given a value, and why it cannot be.  A pin that
/// does not change needs no flag, and a change needs the flag of its edge only.
pub open spec fn after_bit(m: Trace, wiring: Wiring, pin: usize, one: bool) -> (
    Trace,
    Option<PinError>,
) {
    match wiring.position_of(pin) {
        Err(e) => (m, Some(e)),
        Ok(pos) => if pos >= m.state.len() {
            (m, Some(PinError::OutOfState(pin)))
        } else if m.state[pos as int] == one {
            (m, None)
        } else {
            let before = m.state[pos as int];
            match wiring.flag_raised(pin, before) {
                Err(e) => (m, Some(e)),
                Ok(flag) => if flag matches Some(p) && p >= m.state.len() {
                    (m, Some(PinError::OutOfState(pin)))
                } else {
                    (m.at_value(InputPin { pos, flags: flags_for(before, flag) }, one), None)
                },
            }
        },
    }
}

/// The flags of a clock of which one edge matters.
pub open spec fn flags_for(before: bool, flag: Option<usize>) -> ClockFlags {
    if before {
        ClockFlags { pe: None, ne: flag }
    } else {
        ClockFlags { pe: flag, ne: None }
    }
}

/// The trace after the first `n` bits of a value change, and why it ended early
/// where it did.
pub open spec fn after_bits(
    m: Trace,
    map: InputMap,
    wiring: Wiring,
    code: u64,
    values: Seq<u8>,
    n: int,
) -> (Trace, Option<PinError>)
    decreases n,
{
    if n <= 0 {
        (m, None)
    } else {
        let (before, failed) = after_bits(m, map, wiring, code, values, n - 1);
        if failed is Some {
            (before, failed)
        } else {
            match map.pin(code, (n - 1) as usize) {
                None => (before, None),
                Some(pin) => after_bit(before, wiring, pin, values[n - 1] == '1' as u8),
            }
        }
    }
}

/// Gives a pin a value.
fn bit_change(trace: &mut InputTrace, wiring: &Wiring, pin: usize, one: bool) -> (failed: Option<
    PinError,
>)
    requires
        old(trace).wf(),
        pin < wiring.pin2aigpin_iv@.len(),
    ensures
        final(trace).wf(),
        (final(trace)@, failed) == after_bit(old(trace)@, *wiring, pin, one),
        final(trace).clocks == old(trace).clocks,
        final(trace).max_cycles == old(trace).max_cycles,
{
    let words: usize = trace.state.len();
    let pos: usize = match wiring.position(pin) {
        Ok(pos) => pos,
        Err(e) => {
            return Some(e);
        },
    };
    if pos / 32 >= words {
        return Some(PinError::OutOfState(pin));
    }
    let before: bool = get_bit(&trace.state, pos);
    if before == one {
        return None;
    }
    let flag: Option<usize> = match wiring.edge_flag(pin, before) {
        Ok(flag) => flag,
        Err(e) => {
            return Some(e);
        },
    };
    if let Some(p) = flag {
        if p / 32 >= words {
            return Some(PinError::OutOfState(pin));
        }
    }
    let flags: ClockFlags = if before {
        ClockFlags { pe: None, ne: flag }
    } else {
        ClockFlags { pe: flag, ne: None }
    };
    trace.value(InputPin { pos, flags }, one);
    None
}

/// Hands a value change of a dump on to the inputs that its bits stand for.
pub fn value_change(
    trace: &mut InputTrace,
    map: &InputMap,
    wiring: &Wiring,
    code: u64,
    values: &Vec<u8>,
) -> (failed: Option<PinError>)
    requires
        old(trace).wf(),
        forall|pos: usize|
            pos < values@.len() ==> (#[trigger] map.pin(code, pos) matches Some(pin) ==> pin
                < wiring.pin2aigpin_iv@.len()),
    ensures
        final(trace).wf(),
        (final(trace)@, failed) == after_bits(
            old(trace)@,
            *map,
            *wiring,
            code,
            values@,
            values@.len() as int,
        ),
        final(trace).clocks == old(trace).clocks,
        final(trace).max_cycles == old(trace).max_cycles,
{
    let ghost start = *trace;
    for pos in 0..values.len()
        invariant
            trace.wf(),
            trace.clocks == start.clocks,
            trace.max_cycles == start.max_cycles,
            start == *old(trace),
            forall|pos: usize|
                pos < values@.len() ==> (#[trigger] map.pin(code, pos) matches Some(pin) ==> pin
                    < wiring.pin2aigpin_iv@.len()),
            (trace@, None::<PinError>) == after_bits(
                start@,
                *map,
                *wiring,
                code,
                values@,
                pos as int,
            ),
    {
        let mut failed: Option<PinError> = None;
        if let Some(pin) = map.get(code, pos) {
            failed = bit_change(trace, wiring, pin, values[pos] == 49);
        }
        assert((trace@, failed) == after_bits(start@, *map, *wiring, code, values@, pos + 1));
        if failed.is_some() {
            proof {
                lemma_failed(start@, *map, *wiring, code, values@, pos + 1, values@.len() as int);
            }
            return failed;
        }
    }
    None
}

/// A failure ends a value change.
proof fn lemma_failed(
    m: Trace,
    map: InputMap,
    wiring: Wiring,
    code: u64,
    values: Seq<u8>,
    k: int,
    n: int,
)
    requires
        0 <= k <= n,
        after_bits(m, map, wiring, code, values, k).1 is Some,
    ensures
        after_bits(m, map, wiring, code, values, n) == after_bits(m, map, wiring, code, values, k),
    decreases n,
{
    if k < n {
        lemma_failed(m, map, wiring, code, values, k, n - 1);
    }
}

} // verus!
