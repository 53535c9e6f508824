//! What a simulation writes into its value change dump.
use crate::words::bits;
use vstd::prelude::*;

verus! {

/// The position of a signal that is constant.
pub const CONSTANT: u32 = u32::MAX;

/// The bit that marks the position of a signal that is read from the state
/// before a step.
pub const INPUT_MARK: u32 = 0x8000_0000;

/// A signal of the dump: its literal and its position in the state.
#[derive(Clone, Copy, Debug, PartialEq, Eq, Structural)]
pub struct OutputSignal {
    pub aigpin: usize,
    pub pos: u32,
}

/// A signal takes a value.
#[derive(Clone, Copy, Debug, PartialEq, Eq, Structural)]
pub struct Change {
    pub signal: usize,
    pub value: bool,
}

/// The changes at one time.
#[derive(Debug)]
pub struct TimeStep {
    pub timestamp: u64,
    pub changes: Vec<Change>,
}

/// Which bit of the states a signal is read from at a step, where it is not a
/// constant: behind `at` words is the state after the step, and before that the
/// one before it.
pub open spec fn bit_read(signal: OutputSignal, at: int, size: int) -> int {
    if signal.pos >= INPUT_MARK {
        (at - size) * 32 + (signal.pos - INPUT_MARK)
    } else {
        at * 32 + signal.pos
    }
}

/// The value of a signal at a step.
pub open spec fn value_of(states: Seq<bool>, signal: OutputSignal, at: int, size: int) -> bool {
    if signal.pos == CONSTANT {
        signal.aigpin == 1
    } else {
        states[bit_read(signal, at, size)]
    }
}

/// A signal can be read at a step.
pub open spec fn readable(states: Seq<bool>, signal: OutputSignal, at: int, size: int) -> bool {
    if signal.pos == CONSTANT {
        signal.aigpin <= 1
    } else {
        &&& signal.pos >= INPUT_MARK ==> at >= size
        &&& bit_read(signal, at, size) < states.len()
    }
}

/// What is dumped: the states of a chunk, the steps in it, and the signals.
pub struct Dump {
    pub states: Seq<bool>,
    /// Where the states of the steps end, counted from the start of the chunk,
    /// and the times that the steps belong to.
    pub steps: Seq<(int, u64)>,
    pub signals: Seq<OutputSignal>,
    pub size: int,
}

impl Dump {
    /// Step `k` belongs to a time.
    pub open spec fn timed(self, k: int) -> bool {
        self.steps[k].1 != u64::MAX
    }

    /// The value of signal `i` at step `k`.
    pub open spec fn value(self, k: int, i: int) -> bool {
        value_of(self.states, self.signals[i], self.steps[k].0, self.size)
    }

    /// The last step before `k` that belongs to a time.
    pub open spec fn previous(self, k: int) -> Option<int>
        decreases k,
    {
        if k <= 0 {
            None
        } else if self.timed(k - 1) {
            Some(k - 1)
        } else {
            self.previous(k - 1)
        }
    }

    /// Signal `i` has another value at step `k` than at the one before, or no
    /// value has been given for it yet.
    pub open spec fn changes(self, k: int, i: int) -> bool {
        match self.previous(k) {
            Some(j) => self.value(k, i) != self.value(j, i),
            None => true,
        }
    }

    /// The changes of the first `n` signals at step `k`, in their order.
    pub open spec fn changes_at(self, k: int, n: int) -> Seq<Change>
        decreases n,
    {
        if n <= 0 {
            Seq::empty()
        } else if self.changes(k, n - 1) {
            self.changes_at(k, n - 1).push(
                Change { signal: (n - 1) as usize, value: self.value(k, n - 1) },
            )
        } else {
            self.changes_at(k, n - 1)
        }
    }

    /// The times and changes of the first `n` steps.
    pub open spec fn written(self, n: int) -> Seq<(u64, Seq<Change>)>
        decreases n,
    {
        if n <= 0 {
            Seq::empty()
        } else if self.timed(n - 1) {
            self.written(n - 1).push(
                (self.steps[n - 1].1, self.changes_at(n - 1, self.signals.len() as int)),
            )
        } else {
            self.written(n - 1)
        }
    }

    /// Every signal can be read at every step that belongs to a time.
    pub open spec fn wf(self) -> bool {
        forall|k: int, i: int|
            0 <= k < self.steps.len() && self.timed(k) && 0 <= i < self.signals.len() ==> readable(
                self.states,
                #[trigger] self.signals[i],
                (#[trigger] self.steps[k]).0,
                self.size,
            )
    }
}

/// The steps of a chunk that starts behind `start` steps: offsets count from the
/// start of the simulation.
pub open spec fn chunk_steps(offsets: Seq<(usize, u64)>, start: int, size: int) -> Seq<(int, u64)> {
    offsets.map_values(|o: (usize, u64)| (o.0 - start * size, o.1))
}

/// The times and changes of steps.
pub open spec fn steps_written(v: Seq<TimeStep>) -> Seq<(u64, Seq<Change>)> {
    v.map_values(|s: TimeStep| (s.timestamp, s.changes@))
}

/// Reads a signal at a step.
fn read_signal(input_states: &Vec<u32>, signal: OutputSignal, at: usize, size: usize) -> (b: bool)
    requires
        readable(bits(input_states@), signal, at as int, size as int),
    ensures
        b == value_of(bits(input_states@), signal, at as int, size as int),
{
    if signal.pos == CONSTANT {
        return signal.aigpin == 1;
    }
    let ghost p = bit_read(signal, at as int, size as int);
    assert(p / 32 < input_states.len());
    if signal.pos >= INPUT_MARK {
        let pos: u32 = signal.pos - INPUT_MARK;
        assert(p / 32 == at - size + pos as int / 32 && p % 32 == pos % 32);
        let word: usize = at - size + (pos / 32) as usize;
        (input_states[word] >> (pos % 32)) & 1 == 1
    } else {
        let pos: u32 = signal.pos;
        assert(p / 32 == at + pos as int / 32 && p % 32 == pos % 32);
        let word: usize = at + (pos / 32) as usize;
        (input_states[word] >> (pos % 32)) & 1 == 1
    }
}

/// What is written for a chunk of a simulation: for each step that belongs to a
/// time, the signals whose values have changed.
///
/// The chunk starts behind `chunk_start_cycle` steps; its states are those of
/// its steps, with one more before them.
pub fn write_vcd_chunk(
    input_states: &Vec<u32>,
    offsets_timestamps: &Vec<(usize, u64)>,
    out2vcd: &Vec<OutputSignal>,
    reg_io_state_size: usize,
    chunk_start_cycle: usize,
) -> (written: Vec<TimeStep>)
    requires
        chunk_start_cycle * reg_io_state_size <= usize::MAX,
        forall|k: int|
            0 <= k < offsets_timestamps@.len() && (#[trigger] offsets_timestamps@[k]).1 != u64::MAX
                ==> chunk_start_cycle * reg_io_state_size <= offsets_timestamps@[k].0,
        (Dump {
            states: bits(input_states@),
            steps: chunk_steps(
                offsets_timestamps@,
                chunk_start_cycle as int,
                reg_io_state_size as int,
            ),
            signals: out2vcd@,
            size: reg_io_state_size as int,
        }).wf(),
    ensures
        steps_written(written@) == (Dump {
            states: bits(input_states@),
            steps: chunk_steps(
                offsets_timestamps@,
                chunk_start_cycle as int,
                reg_io_state_size as int,
            ),
            signals: out2vcd@,
            size: reg_io_state_size as int,
        }).written(offsets_timestamps@.len() as int),
{
    let ghost d = Dump {
        states: bits(input_states@),
        steps: chunk_steps(
            offsets_timestamps@,
            chunk_start_cycle as int,
            reg_io_state_size as int,
        ),
        signals: out2vcd@,
        size: reg_io_state_size as int,
    };
    let mut written: Vec<TimeStep> = Vec::new();
    let mut last_val: Vec<Option<bool>> = Vec::new();
    for i in 0..out2vcd.len()
        invariant
            last_val@.len() == i,
            forall|j: int| 0 <= j < i ==> (#[trigger] last_val@[j]) is None,
    {
        last_val.push(None);
    }
    let start: usize = chunk_start_cycle * reg_io_state_size;
    assert(steps_written(written@) =~= d.written(0));
    for k in 0..offsets_timestamps.len()
        invariant
            start == chunk_start_cycle * reg_io_state_size,
            forall|k: int|
                0 <= k < offsets_timestamps@.len() && (#[trigger] offsets_timestamps@[k]).1
                    != u64::MAX ==> start <= offsets_timestamps@[k].0,
            d.wf(),
            d.states == bits(input_states@),
            d.steps == chunk_steps(
                offsets_timestamps@,
                chunk_start_cycle as int,
                reg_io_state_size as int,
            ),
            d.signals == out2vcd@,
            d.size == reg_io_state_size,
            last_val@.len() == out2vcd@.len(),
            forall|i: int|
                0 <= i < out2vcd@.len() ==> #[trigger] last_val@[i] == (match d.previous(k as int) {
                    Some(j) => Some(d.value(j, i)),
                    None => None,
                }),
            steps_written(written@) == d.written(k as int),
    {
        let (global_offset, timestamp): (usize, u64) = offsets_timestamps[k];
        assert(d.steps[k as int] == (global_offset - start, timestamp));
        if timestamp != u64::MAX {
            let chunk_offset: usize = global_offset - start;
            let changes: Vec<Change> = step_changes(
                input_states,
                out2vcd,
                reg_io_state_size,
                chunk_offset,
                &mut last_val,
                Ghost(d),
                Ghost(k as int),
            );
            let ghost before = steps_written(written@);
            let ghost change_seq = changes@;
            written.push(TimeStep { timestamp, changes });
            assert(steps_written(written@) =~= before.push((timestamp, change_seq)));
        }
    }
    written
}

/// The changes at one step.
fn step_changes(
    input_states: &Vec<u32>,
    out2vcd: &Vec<OutputSignal>,
    size: usize,
    at: usize,
    last_val: &mut Vec<Option<bool>>,
    Ghost(d): Ghost<Dump>,
    Ghost(k): Ghost<int>,
) -> (changes: Vec<Change>)
    requires
        d.wf(),
        d.states == bits(input_states@),
        d.signals == out2vcd@,
        d.size == size,
        0 <= k < d.steps.len(),
        d.timed(k),
        d.steps[k].0 == at,
        old(last_val)@.len() == out2vcd@.len(),
        forall|i: int|
            0 <= i < out2vcd@.len() ==> #[trigger] old(last_val)@[i] == (match d.previous(k) {
                Some(j) => Some(d.value(j, i)),
                None => None,
            }),
    ensures
        changes@ == d.changes_at(k, out2vcd@.len() as int),
        final(last_val)@.len() == out2vcd@.len(),
        forall|i: int|
            0 <= i < out2vcd@.len() ==> #[trigger] final(last_val)@[i] == Some(d.value(k, i)),
{
    let mut changes: Vec<Change> = Vec::new();
    for i in 0..out2vcd.len()
        invariant
            d.wf(),
            d.states == bits(input_states@),
            d.signals == out2vcd@,
            d.size == size,
            0 <= k < d.steps.len(),
            d.timed(k),
            d.steps[k].0 == at,
            last_val@.len() == out2vcd@.len(),
            forall|j: int|
                0 <= j < out2vcd@.len() ==> #[trigger] last_val@[j] == (if j < i {
                    Some(d.value(k, j))
                } else {
                    match d.previous(k) {
                        Some(p) => Some(d.value(p, j)),
                        None => None,
                    }
                }),
            changes@ == d.changes_at(k, i as int),
    {
        let signal: OutputSignal = out2vcd[i];
        assert(readable(d.states, d.signals[i as int], d.steps[k].0, d.size));
        let value: bool = read_signal(input_states, signal, at, size);
        let unchanged: bool = match last_val[i] {
            Some(last) => last == value,
            None => false,
        };
        if !unchanged {
            last_val.set(i, Some(value));
            changes.push(Change { signal: i, value });
        }
    }
    changes
}

/// The value that a list of changes gives a signal, where it gives one.
pub open spec fn given(changes: Seq<Change>, i: int) -> Option<bool>
    decreases changes.len(),
{
    if changes.len() == 0 {
        None
    } else if changes.last().signal == i {
        Some(changes.last().value)
    } else {
        given(changes.drop_last(), i)
    }
}

/// The value that a reader of the dump sees for a signal behind its last time.
pub open spec fn shown(written: Seq<(u64, Seq<Change>)>, i: int) -> Option<bool>
    decreases written.len(),
{
    if written.len() == 0 {
        None
    } else {
        match given(written.last().1, i) {
            Some(value) => Some(value),
            None => shown(written.drop_last(), i),
        }
    }
}

/// The changes at a step give a signal its value where it changes.
proof fn lemma_given(d: Dump, k: int, n: int, i: int)
    requires
        0 <= n <= d.signals.len() <= usize::MAX,
        0 <= i,
    ensures
        given(d.changes_at(k, n), i) == (if i < n && d.changes(k, i) {
            Some(d.value(k, i))
        } else {
            None
        }),
    decreases n,
{
    if n > 0 {
        lemma_given(d, k, n - 1, i);
        if d.changes(k, n - 1) {
            assert(d.changes_at(k, n).drop_last() =~= d.changes_at(k, n - 1));
        }
    }
}

/// A reader of the dump sees, behind every time, the values that the signals
/// have at its step.
pub proof fn dump_shows_every_value(d: Dump, n: int, i: int)
    requires
        0 <= n <= d.steps.len(),
        0 <= i < d.signals.len() <= usize::MAX,
    ensures
        shown(d.written(n), i) == (match d.previous(n) {
            Some(k) => Some(d.value(k, i)),
            None => None,
        }),
    decreases n,
{
    if n > 0 {
        dump_shows_every_value(d, n - 1, i);
        if d.timed(n - 1) {
            lemma_given(d, n - 1, d.signals.len() as int, i);
            assert(d.written(n).drop_last() =~= d.written(n - 1));
        }
    }
}

/// No change repeats the value that a reader of the dump already sees.
pub proof fn dump_repeats_nothing(d: Dump, k: int, i: int)
    requires
        0 <= k < d.steps.len(),
        d.timed(k),
        0 <= i < d.signals.len() <= usize::MAX,
    ensures
        given(d.changes_at(k, d.signals.len() as int), i) matches Some(value) ==> shown(
            d.written(k),
            i,
        ) != Some(value),
{
    lemma_given(d, k, d.signals.len() as int, i);
    dump_shows_every_value(d, k, i);
}

/// Bit `k` of a word.
pub open spec fn bit_of(word: u32, k: u32) -> bool {
    (word >> k) & 1 == 1
}

/// A register at position `p` of a state of `size` words shows, at a step whose
/// state ends behind `at` words, bit `p % 32` of word `p / 32` of the `size` words
/// before that.  An output at position `p` shows the same bit of the words that
/// follow.  A constant shows itself.
pub proof fn signals_are_read_from_their_bits(
    words: Seq<u32>,
    signal: OutputSignal,
    p: u32,
    at: int,
    size: int,
)
    requires
        0 <= size <= at,
        p < 0x7fff_ffff,
        p < 32 * size,
        at + size <= words.len(),
    ensures
        signal.pos == p + 0x8000_0000 ==> {
            &&& readable(bits(words), signal, at, size)
            &&& value_of(bits(words), signal, at, size) == bit_of(
                words[at - size + p as int / 32],
                p % 32,
            )
        },
        signal.pos == p ==> {
            &&& readable(bits(words), signal, at, size)
            &&& value_of(bits(words), signal, at, size) == bit_of(
                words[at + p as int / 32],
                p % 32,
            )
        },
        signal.pos == u32::MAX ==> value_of(bits(words), signal, at, size) == (signal.aigpin == 1),
{
    if signal.pos == p + 0x8000_0000 {
        let n = (at - size) * 32 + p;
        assert(n / 32 == at - size + p as int / 32 && n % 32 == p % 32);
        assert(bits(words)[n] == bit_of(words[n / 32], (n % 32) as u32));
    }
    if signal.pos == p {
        let n = at * 32 + p;
        assert(n / 32 == at + p as int / 32 && n % 32 == p % 32);
        assert(bits(words)[n] == bit_of(words[n / 32], (n % 32) as u32));
    }
}

} // verus!
