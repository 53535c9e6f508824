//! The input states of a simulation, gathered from a value change dump.
//!
//! A simulated step propagates values first and updates the registers then,
//! while a dump describes an update that propagates.  So a change of an input
//! is kept back until the time of the dump moves on, while the flag for a clock
//! edge is raised at once: the step then sees the inputs from before the edge.
use crate::collections::{inserted, lemma_inserted, set_at, set_insert, set_items, set_len, set_new};
use crate::words::{bits, clear_bit, flip_bit, get_bit, lemma_bits_add, set_bit};
use indexmap::IndexSet;
use vstd::prelude::*;

verus! {

/// The positions of the flags for the rising and the falling edge of a clock.
#[derive(Clone, Copy, Debug, PartialEq, Eq, Structural)]
pub struct ClockFlags {
    pub pe: Option<usize>,
    pub ne: Option<usize>,
}

/// An input: its position in the state and, for a clock, its flags.
#[derive(Clone, Copy, Debug, PartialEq, Eq, Structural)]
pub struct InputPin {
    pub pos: usize,
    pub flags: ClockFlags,
}

/// A position is that of a flag.
pub open spec fn is_flag_of(f: ClockFlags, p: int) -> bool {
    (f.pe matches Some(q) && q == p) || (f.ne matches Some(q) && q == p)
}

/// A position is that of a flag of one of the clocks.
pub open spec fn is_flag(clocks: Seq<ClockFlags>, p: int) -> bool {
    exists|c: int| 0 <= c < clocks.len() && is_flag_of(#[trigger] clocks[c], p)
}

/// The flags lie in a state of `n` bits.
pub open spec fn flags_in(f: ClockFlags, n: int) -> bool {
    (f.pe matches Some(p) ==> p < n) && (f.ne matches Some(p) ==> p < n)
}

/// The flags of all clocks lie in a state of `n` bits.
pub open spec fn clocks_in(clocks: Seq<ClockFlags>, n: int) -> bool {
    forall|c: int| 0 <= c < clocks.len() ==> flags_in(#[trigger] clocks[c], n)
}

/// An input lies in a state of `n` bits.
pub open spec fn pin_in(pin: InputPin, n: int) -> bool {
    pin.pos < n && flags_in(pin.flags, n)
}

/// How far the dump has been read.
pub struct Trace {
    /// The state that the next step starts from.
    pub state: Seq<bool>,
    /// The last time strictly before `time` at which a clock edge was seen.
    pub time_last_active: u64,
    /// The time that has been reached.
    pub time: u64,
    /// Whether a clock edge has been seen at `time`.
    pub active: bool,
    /// The inputs that change when the time moves on.
    pub delayed: Set<usize>,
    /// The states of all steps, one after the other.
    pub states: Seq<bool>,
    /// For each step, the number of words in the states up to its own, and
    /// the time that its result belongs to.
    pub offsets: Seq<(int, u64)>,
}

/// A state with all flags lowered.
pub open spec fn lowered(state: Seq<bool>, clocks: Seq<ClockFlags>) -> Seq<bool> {
    Seq::new(state.len(), |p: int| state[p] && !is_flag(clocks, p))
}

/// A state with some bits turned over.
pub open spec fn flipped(state: Seq<bool>, which: Set<usize>) -> Seq<bool> {
    Seq::new(state.len(), |p: int| state[p] != (p <= usize::MAX && which.contains(p as usize)))
}

/// A state with a flag raised.
pub open spec fn raised(state: Seq<bool>, flag: Option<usize>) -> Seq<bool> {
    match flag {
        Some(p) => state.update(p as int, true),
        None => state,
    }
}

impl Trace {
    /// Before anything has been read: `size` words of zeros.
    pub open spec fn start(size: int) -> Trace {
        Trace {
            state: Seq::new((size * 32) as nat, |p: int| false),
            time_last_active: u64::MAX,
            time: 0,
            active: true,
            delayed: Set::empty(),
            states: Seq::empty(),
            offsets: Seq::empty(),
        }
    }

    /// A step is recorded.
    pub open spec fn recorded(self, clocks: Seq<ClockFlags>) -> Trace {
        let states = self.states + self.state;
        Trace {
            state: lowered(self.state, clocks),
            states,
            offsets: self.offsets.push((states.len() as int / 32, self.time_last_active)),
            ..self
        }
    }

    /// The time moves on.
    pub open spec fn moved(self, t: u64) -> Trace {
        Trace {
            state: flipped(self.state, self.delayed),
            time_last_active: if self.active {
                self.time
            } else {
                self.time_last_active
            },
            time: t,
            active: false,
            delayed: Set::empty(),
            ..self
        }
    }

    /// The step at the current time is recorded where there is one.
    pub open spec fn settled(self, clocks: Seq<ClockFlags>) -> Trace {
        if self.active {
            self.recorded(clocks)
        } else {
            self
        }
    }

    /// Whether a new time ends the reading: a step has been recorded, and
    /// there are as many as are wanted.
    pub open spec fn is_full(self, t: u64, max_cycles: Option<usize>) -> bool {
        t != self.time && self.active && match max_cycles {
            Some(m) => self.offsets.len() + 1 >= m,
            None => false,
        }
    }

    /// The dump names a time.
    pub open spec fn at_time(
        self,
        t: u64,
        clocks: Seq<ClockFlags>,
        max_cycles: Option<usize>,
    ) -> Trace {
        if t == self.time {
            self
        } else if self.is_full(t, max_cycles) {
            self.recorded(clocks)
        } else {
            self.settled(clocks).moved(t)
        }
    }

    /// The dump gives an input a value.
    pub open spec fn at_value(self, pin: InputPin, one: bool) -> Trace {
        let before = self.state[pin.pos as int];
        if before == one {
            self
        } else {
            let edge = if before {
                pin.flags.ne
            } else {
                pin.flags.pe
            };
            Trace {
                state: raised(self.state, edge),
                active: self.active || edge is Some,
                delayed: self.delayed.insert(pin.pos),
                ..self
            }
        }
    }
}

/// Gathers the input states while a dump is being read.
pub struct InputTrace {
    pub state: Vec<u32>,
    pub time_last_active: u64,
    pub time: u64,
    pub active: bool,
    pub delayed: IndexSet<usize>,
    pub input_states: Vec<u32>,
    pub offsets_timestamps: Vec<(usize, u64)>,
    pub clocks: Vec<ClockFlags>,
    pub max_cycles: Option<usize>,
}

/// Offsets and times as they are.
pub open spec fn offsets_of(v: Seq<(usize, u64)>) -> Seq<(int, u64)> {
    v.map_values(|o: (usize, u64)| (o.0 as int, o.1))
}

impl View for InputTrace {
    type V = Trace;

    open spec fn view(&self) -> Trace {
        Trace {
            state: bits(self.state@),
            time_last_active: self.time_last_active,
            time: self.time,
            active: self.active,
            delayed: set_items(self.delayed).to_set(),
            states: bits(self.input_states@),
            offsets: offsets_of(self.offsets_timestamps@),
        }
    }
}

impl InputTrace {
    /// The flags and the inputs that are kept back lie in the state.
    pub open spec fn wf(self) -> bool {
        &&& clocks_in(self.clocks@, self@.state.len() as int)
        &&& set_items(self.delayed).no_duplicates()
        &&& forall|i: int|
            0 <= i < set_items(self.delayed).len() ==> #[trigger] set_items(self.delayed)[i]
                < self@.state.len()
    }

    /// Starts with a state of `size` words of zeros.  Where `max_cycles` is
    /// given, reading ends at that many steps.
    pub fn new(size: usize, clocks: Vec<ClockFlags>, max_cycles: Option<usize>) -> (r: InputTrace)
        requires
            clocks_in(clocks@, size * 32),
        ensures
            r.wf(),
            r@ == Trace::start(size as int),
            r.clocks == clocks,
            r.max_cycles == max_cycles,
    {
        let state: Vec<u32> = vec![0u32; size];
        proof {
            assert forall|p: int| 0 <= p < size * 32 implies !bits(state@)[p] by {
                let i = (p % 32) as u32;
                assert(0u32 >> i & 1u32 == 0u32) by (bit_vector);
                assert(state@[p / 32] == 0u32);
            }
            assert(bits(state@) =~= Trace::start(size as int).state);
        }
        let r = InputTrace {
            state,
            time_last_active: u64::MAX,
            time: 0,
            active: true,
            delayed: set_new(),
            input_states: Vec::new(),
            offsets_timestamps: Vec::new(),
            clocks,
            max_cycles,
        };
        proof {
            assert(r@.delayed =~= Set::empty());
            assert(r@.states =~= Seq::empty());
            assert(r@.offsets =~= Seq::empty());
        }
        r
    }

    /// Lowers all flags.
    fn lower_flags(&mut self)
        requires
            old(self).wf(),
        ensures
            final(self)@.state == lowered(old(self)@.state, old(self).clocks@),
            *final(self) == (InputTrace { state: final(self).state, ..*old(self) }),
            final(self).state@.len() == old(self).state@.len(),
    {
        let ghost start = *self;
        let mut c: usize = 0;
        while c < self.clocks.len()
            invariant
                start.wf(),
                *self == (InputTrace { state: self.state, ..start }),
                self.state@.len() == start.state@.len(),
                c <= self.clocks@.len(),
                bits(self.state@) == lowered(start@.state, start.clocks@.take(c as int)),
            decreases self.clocks@.len() - c,
        {
            let flags: ClockFlags = self.clocks[c];
            let ghost seen = start.clocks@.take(c as int);
            let ghost more = start.clocks@.take(c + 1);
            assert(start.clocks@[c as int] == flags);
            if let Some(p) = flags.pe {
                clear_bit(&mut self.state, p);
            }
            if let Some(p) = flags.ne {
                clear_bit(&mut self.state, p);
            }
            proof {
                assert forall|p: int| is_flag(more, p) == (is_flag(seen, p) || is_flag_of(flags, p)) by {
                    if is_flag(seen, p) {
                        let k = choose|k: int|
                            0 <= k < seen.len() && is_flag_of(#[trigger] seen[k], p);
                        assert(more[k] == seen[k]);
                    }
                    if is_flag_of(flags, p) {
                        assert(more[c as int] == flags);
                    }
                    if is_flag(more, p) {
                        let k = choose|k: int|
                            0 <= k < more.len() && is_flag_of(#[trigger] more[k], p);
                        if k < c {
                            assert(seen[k] == more[k]);
                        }
                    }
                }
                assert(bits(self.state@) =~= lowered(start@.state, more));
            }
            c += 1;
        }
        proof {
            assert(start.clocks@.take(c as int) =~= start.clocks@);
        }
    }

    /// Records the state as that of a step.
    fn record(&mut self)
        requires
            old(self).wf(),
        ensures
            final(self).wf(),
            final(self)@ == old(self)@.recorded(old(self).clocks@),
            final(self).clocks == old(self).clocks,
            final(self).max_cycles == old(self).max_cycles,
    {
        let ghost start = *self;
        self.append_state();
        let end: usize = self.input_states.len();
        let since: u64 = self.time_last_active;
        self.offsets_timestamps.push((end, since));
        self.lower_flags();
        proof {
            assert(self@.states.len() as int / 32 == end);
            assert(self@.offsets =~= start@.offsets.push((end as int, since)));
        }
    }

    /// Appends the state to the states of the steps.
    fn append_state(&mut self)
        ensures
            *final(self) == (InputTrace { input_states: final(self).input_states, ..*old(self) }),
            final(self).input_states@ == old(self).input_states@ + old(self).state@,
            final(self)@.states == old(self)@.states + old(self)@.state,
    {
        let ghost start = *self;
        let mut i: usize = 0;
        while i < self.state.len()
            invariant
                *self == (InputTrace { input_states: self.input_states, ..start }),
                i <= self.state@.len(),
                self.input_states@ == start.input_states@ + start.state@.take(i as int),
            decreases self.state@.len() - i,
        {
            let word: u32 = self.state[i];
            self.input_states.push(word);
            i += 1;
            assert(start.state@.take(i as int) =~= start.state@.take(i - 1).push(word));
        }
        proof {
            assert(start.state@.take(i as int) =~= start.state@);
            lemma_bits_add(start.input_states@, start.state@);
        }
    }

    /// Turns over the inputs that were kept back.
    fn flip_delayed(&mut self)
        requires
            old(self).wf(),
        ensures
            final(self)@.state == flipped(old(self)@.state, old(self)@.delayed),
            final(self)@.delayed == Set::<usize>::empty(),
            set_items(final(self).delayed) == Seq::<usize>::empty(),
            *final(self) == (InputTrace {
                state: final(self).state,
                delayed: final(self).delayed,
                ..*old(self)
            }),
            final(self).state@.len() == old(self).state@.len(),
    {
        let ghost start = *self;
        let ghost items = set_items(self.delayed);
        let n: usize = set_len(&self.delayed);
        let mut i: usize = 0;
        while i < n
            invariant
                start.wf(),
                items == set_items(start.delayed),
                n == items.len(),
                *self == (InputTrace { state: self.state, ..start }),
                self.state@.len() == start.state@.len(),
                i <= n,
                bits(self.state@) == flipped(start@.state, items.take(i as int).to_set()),
            decreases n - i,
        {
            let p: usize = set_at(&self.delayed, i);
            let ghost seen = items.take(i as int).to_set();
            let ghost more = items.take(i + 1).to_set();
            assert(items[i as int] == p);
            flip_bit(&mut self.state, p);
            proof {
                assert(!items.take(i as int).contains(p));
                assert(more =~= seen.insert(p)) by {
                    assert(items.take(i + 1) =~= items.take(i as int).push(p));
                    lemma_inserted(items.take(i as int), p);
                    assert forall|x: usize| more.contains(x) == seen.insert(p).contains(x) by {
                        assert(items.take(i + 1) == inserted(items.take(i as int), p));
                        assert(inserted(items.take(i as int), p).contains(x) <==> items.take(
                            i as int,
                        ).contains(x) || x == p);
                    }
                }
                assert(bits(self.state@) =~= flipped(start@.state, more));
            }
            i += 1;
        }
        proof {
            assert(items.take(i as int) =~= items);
        }
        self.delayed = set_new();
        assert(self@.delayed =~= Set::empty());
    }

    /// The dump names a time.  Says whether the reading is over.
    pub fn timestamp(&mut self, t: u64) -> (over: bool)
        requires
            old(self).wf(),
        ensures
            final(self).wf(),
            over == old(self)@.is_full(t, old(self).max_cycles),
            final(self)@ == old(self)@.at_time(t, old(self).clocks@, old(self).max_cycles),
            final(self).clocks == old(self).clocks,
            final(self).max_cycles == old(self).max_cycles,
    {
        if t == self.time {
            return false;
        }
        let ghost start = *self;
        if self.active {
            self.record();
            assert(self@.offsets.len() == start@.offsets.len() + 1);
            assert(self@.offsets.len() == self.offsets_timestamps@.len());
            if let Some(max_cycles) = self.max_cycles {
                if self.offsets_timestamps.len() >= max_cycles {
                    return true;
                }
            }
        }
        assert(self@ == start@.settled(start.clocks@));
        if self.active {
            self.time_last_active = self.time;
        }
        self.time = t;
        self.active = false;
        self.flip_delayed();
        false
    }

    /// The dump gives an input a value: a one, or anything else.
    pub fn value(&mut self, pin: InputPin, one: bool)
        requires
            old(self).wf(),
            pin_in(pin, old(self)@.state.len() as int),
        ensures
            final(self).wf(),
            final(self)@ == old(self)@.at_value(pin, one),
            final(self).clocks == old(self).clocks,
            final(self).max_cycles == old(self).max_cycles,
    {
        let before: bool = get_bit(&self.state, pin.pos);
        if before == one {
            return;
        }
        let ghost start = *self;
        let edge: Option<usize> = if before {
            pin.flags.ne
        } else {
            pin.flags.pe
        };
        if let Some(p) = edge {
            self.active = true;
            set_bit(&mut self.state, p);
        }
        let ghost items = set_items(self.delayed);
        set_insert(&mut self.delayed, pin.pos);
        proof {
            lemma_inserted(items, pin.pos);
            let after = inserted(items, pin.pos);
            assert forall|x: usize| #[trigger] after.to_set().contains(x) == items.to_set().insert(
                pin.pos,
            ).contains(x) by {
                assert(after.contains(x) <==> items.contains(x) || x == pin.pos);
            }
            assert(self@.delayed =~= start@.delayed.insert(pin.pos));
        }
    }

    /// Ends the reading: the states of all steps, followed by the state that
    /// was reached, and where the states of the steps end.
    pub fn finish(self) -> (r: (Vec<u32>, Vec<(usize, u64)>))
        ensures
            bits(r.0@) == self@.states + self@.state,
            offsets_of(r.1@) == self@.offsets,
    {
        let mut trace = self;
        trace.append_state();
        (trace.input_states, trace.offsets_timestamps)
    }
}

} // verus!
