//! Simulations in chunks that fit into the memory of a device.
use crate::dump::{chunk_steps, readable, Dump, OutputSignal, CONSTANT, INPUT_MARK};
use crate::words::bits;
use vstd::arithmetic::div_mod::lemma_fundamental_div_mod;
use vstd::prelude::*;

verus! {

/// The number of bytes in a word of the state.
pub const WORD_BYTES: usize = 4;

/// The number of bytes in an index.
pub const INDEX_BYTES: usize = 8;

/// How many bytes a simulation takes on the device.
#[derive(Clone, Copy, Debug, PartialEq, Eq, Structural)]
pub struct MemoryUsage {
    pub input_states: usize,
    pub sram_storage: usize,
    pub blocks_data: usize,
    pub blocks_start: usize,
}

impl MemoryUsage {
    /// What a simulation takes besides its states.
    pub open spec fn fixed(self) -> int {
        self.sram_storage + self.blocks_data + self.blocks_start
    }

    /// All bytes.
    pub fn total(&self) -> (n: usize)
        requires
            self.input_states + self.fixed() <= usize::MAX,
        ensures
            n == self.input_states + self.fixed(),
    {
        self.input_states + self.sram_storage + self.blocks_data + self.blocks_start
    }

    /// The bytes that are left for states.
    pub fn available(&self, total_mem_bytes: usize) -> (n: usize)
        requires
            self.fixed() <= total_mem_bytes,
        ensures
            n == total_mem_bytes - self.fixed(),
    {
        total_mem_bytes - self.sram_storage - self.blocks_data - self.blocks_start
    }
}

/// The memory that `cycles` steps take: a state of `state_size` words each, the
/// words of the memories, and the words and indices of the script.
pub fn memory_usage(
    cycles: usize,
    state_size: usize,
    sram_words: usize,
    data_words: usize,
    num_starts: usize,
) -> (m: MemoryUsage)
    requires
        cycles * state_size * WORD_BYTES <= usize::MAX,
        sram_words * WORD_BYTES <= usize::MAX,
        data_words * WORD_BYTES <= usize::MAX,
        num_starts * INDEX_BYTES <= usize::MAX,
    ensures
        m.input_states == cycles * state_size * WORD_BYTES,
        m.sram_storage == sram_words * WORD_BYTES,
        m.blocks_data == data_words * WORD_BYTES,
        m.blocks_start == num_starts * INDEX_BYTES,
{
    assert(cycles * state_size <= cycles * state_size * WORD_BYTES) by (nonlinear_arith);
    MemoryUsage {
        input_states: cycles * state_size * WORD_BYTES,
        sram_storage: sram_words * WORD_BYTES,
        blocks_data: data_words * WORD_BYTES,
        blocks_start: num_starts * INDEX_BYTES,
    }
}

/// A quotient, rounded up.
pub open spec fn ceil_div(a: int, b: int) -> int {
    (a + b - 1) / b
}

/// How many steps fit into some bytes.
pub open spec fn cycles_fitting(available: int, state_size: int) -> int {
    available / (state_size * WORD_BYTES)
}

/// The number of chunks: as few as fit, one step in each where not even one
/// fits, and one where there are no steps.
pub open spec fn num_chunks(cycles: int, available: int, state_size: int) -> int {
    if cycles == 0 {
        1
    } else if cycles_fitting(available, state_size) > 0 {
        ceil_div(cycles, cycles_fitting(available, state_size))
    } else {
        cycles
    }
}

/// How a simulation is cut into chunks of consecutive steps.
#[derive(Clone, Copy, Debug, PartialEq, Eq, Structural)]
pub struct ChunkPlan {
    pub total_cycles: usize,
    pub num_chunks: usize,
    pub cycles_per_chunk: usize,
}

impl ChunkPlan {
    /// The chunks cover the steps.
    pub open spec fn wf(self) -> bool {
        &&& self.num_chunks >= 1
        &&& (self.num_chunks - 1) * self.cycles_per_chunk <= self.total_cycles
        &&& self.total_cycles > 0 ==> (self.num_chunks - 1) * self.cycles_per_chunk
            < self.total_cycles
        &&& self.total_cycles <= self.num_chunks * self.cycles_per_chunk
    }

    /// The step that a chunk starts with.
    pub open spec fn first(self, chunk: int) -> int {
        chunk * self.cycles_per_chunk
    }

    /// The step behind the last one of a chunk.
    pub open spec fn end(self, chunk: int) -> int {
        if chunk == self.num_chunks - 1 {
            self.total_cycles as int
        } else {
            (chunk + 1) * self.cycles_per_chunk
        }
    }

    /// Cuts a simulation into chunks whose states fit into `available` bytes.
    pub fn new(total_cycles: usize, available: usize, state_size: usize) -> (p: ChunkPlan)
        requires
            total_cycles > 0 ==> 0 < state_size && state_size * WORD_BYTES <= usize::MAX,
            total_cycles > 0 ==> total_cycles + cycles_fitting(available as int, state_size as int)
                <= usize::MAX,
            total_cycles + num_chunks(total_cycles as int, available as int, state_size as int)
                <= usize::MAX,
        ensures
            p.wf(),
            p.total_cycles == total_cycles,
            p.num_chunks == num_chunks(total_cycles as int, available as int, state_size as int),
            p.cycles_per_chunk == ceil_div(total_cycles as int, p.num_chunks as int),
    {
        let ghost total = total_cycles as int;
        let num_chunks: usize = if total_cycles > 0 {
            let memory_per_cycle: usize = state_size * WORD_BYTES;
            let fitting: usize = available / memory_per_cycle;
            if fitting > 0 {
                proof {
                    lemma_ceil(total, fitting as int);
                }
                (total_cycles + fitting - 1) / fitting
            } else {
                total_cycles
            }
        } else {
            1
        };
        proof {
            lemma_ceil(total, num_chunks as int);
            if total > 0 {
                let fitting = cycles_fitting(available as int, state_size as int);
                if fitting > 0 {
                    lemma_even(total, fitting, num_chunks as int);
                } else {
                    assert(total + total - 1 == total * 1 + (total - 1));
                    lemma_even(total, 1, num_chunks as int);
                }
            } else {
                assert(ceil_div(0, 1) == 0);
            }
        }
        let cycles_per_chunk: usize = (total_cycles + num_chunks - 1) / num_chunks;
        let p = ChunkPlan { total_cycles, num_chunks, cycles_per_chunk };
        proof {
            assert((num_chunks - 1) * cycles_per_chunk == cycles_per_chunk * (num_chunks - 1))
                by (nonlinear_arith);
            assert(num_chunks * cycles_per_chunk == cycles_per_chunk * num_chunks)
                by (nonlinear_arith);
        }
        p
    }

    /// The steps of a chunk: the first one and the one behind the last.
    pub fn chunk(&self, chunk: usize) -> (r: (usize, usize))
        requires
            self.wf(),
            chunk < self.num_chunks,
        ensures
            r.0 == self.first(chunk as int),
            r.1 == self.end(chunk as int),
            r.0 <= r.1 <= self.total_cycles,
    {
        proof {
            lemma_chunk_in(*self, chunk as int);
        }
        let start: usize = chunk * self.cycles_per_chunk;
        let end: usize = if chunk == self.num_chunks - 1 {
            self.total_cycles
        } else {
            (chunk + 1) * self.cycles_per_chunk
        };
        (start, end)
    }
}

/// A quotient that is rounded up is the least that covers.
proof fn lemma_ceil(a: int, b: int)
    requires
        a >= 0,
        b > 0,
    ensures
        a <= ceil_div(a, b) * b,
        (ceil_div(a, b) - 1) * b < a,
        0 <= ceil_div(a, b),
        a > 0 ==> 0 < ceil_div(a, b) <= a,
{
    let q = ceil_div(a, b);
    lemma_fundamental_div_mod(a + b - 1, b);
    let r = (a + b - 1) % b;
    assert(q * b == b * q) by (nonlinear_arith);
    assert((q - 1) * b == q * b - b) by (nonlinear_arith);
    assert(0 <= q) by (nonlinear_arith)
        requires
            a + b - 1 == b * q + r,
            0 <= r < b,
            a >= 0,
            b > 0,
    ;
    if a > 0 {
        assert(q > 0) by (nonlinear_arith)
            requires
                a <= q * b,
                a > 0,
                b > 0,
        ;
        assert(q <= a) by (nonlinear_arith)
            requires
                (q - 1) * b < a,
                b > 0,
                q > 0,
        ;
    }
}

/// Spreading steps evenly over as many chunks as are needed leaves none of them
/// empty and makes none of them larger.
proof fn lemma_even(total: int, fitting: int, chunks: int)
    requires
        total > 0,
        fitting > 0,
        chunks == ceil_div(total, fitting),
    ensures
        chunks > 0,
        ceil_div(total, chunks) <= fitting,
        ceil_div(total, chunks) * (chunks - 1) < total,
{
    lemma_ceil(total, fitting);
    lemma_ceil(total, chunks);
    let per = ceil_div(total, chunks);
    assert(per <= fitting) by (nonlinear_arith)
        requires
            total <= chunks * fitting,
            (per - 1) * chunks < total,
            chunks > 0,
    ;
    assert(per * (chunks - 1) < total) by (nonlinear_arith)
        requires
            per <= fitting,
            (chunks - 1) * fitting < total,
            chunks > 0,
    ;
}

/// A chunk lies among the steps.
proof fn lemma_chunk_in(p: ChunkPlan, chunk: int)
    requires
        p.wf(),
        0 <= chunk < p.num_chunks,
    ensures
        0 <= p.first(chunk) <= p.end(chunk) <= p.total_cycles,
        p.total_cycles > 0 ==> p.first(chunk) < p.total_cycles,
        chunk < p.num_chunks - 1 ==> p.end(chunk) == p.first(chunk + 1),
{
    let c = p.cycles_per_chunk as int;
    let last = p.num_chunks - 1;
    assert(chunk * c <= last * c) by (nonlinear_arith)
        requires
            0 <= chunk <= last,
            c >= 0,
    ;
    assert(0 <= chunk * c) by (nonlinear_arith)
        requires
            0 <= chunk,
            c >= 0,
    ;
    if chunk < last {
        assert((chunk + 1) * c <= last * c) by (nonlinear_arith)
            requires
                chunk + 1 <= last,
                c >= 0,
        ;
        assert(chunk * c <= (chunk + 1) * c) by (nonlinear_arith)
            requires
                c >= 0,
        ;
    }
}

/// The chunks cover the steps without a gap and without an overlap: the first
/// starts with the first step, each starts where the one before it ends, and
/// the last ends with the last step.
pub proof fn chunks_cover_the_steps(p: ChunkPlan, chunk: int)
    requires
        p.wf(),
        0 <= chunk < p.num_chunks,
    ensures
        p.first(0) == 0,
        p.end(p.num_chunks - 1) == p.total_cycles,
        p.first(chunk) <= p.end(chunk) <= p.total_cycles,
        chunk < p.num_chunks - 1 ==> p.first(chunk + 1) == p.end(chunk),
        p.total_cycles > 0 ==> p.first(chunk) < p.total_cycles,
{
    lemma_chunk_in(p, chunk);
    assert(0 * p.cycles_per_chunk == 0);
}

/// Where the states of one step fit into the memory, those of every chunk do.
pub proof fn chunks_fit_the_memory(
    total_cycles: int,
    available: int,
    state_size: int,
    p: ChunkPlan,
    chunk: int,
)
    requires
        total_cycles > 0,
        state_size > 0,
        available >= state_size * WORD_BYTES,
        p.wf(),
        p.total_cycles == total_cycles,
        p.num_chunks == num_chunks(total_cycles, available, state_size),
        p.cycles_per_chunk == ceil_div(total_cycles, p.num_chunks as int),
        0 <= chunk < p.num_chunks,
    ensures
        (p.end(chunk) - p.first(chunk)) * state_size * WORD_BYTES <= available,
{
    let per = state_size * WORD_BYTES;
    let fitting = cycles_fitting(available, state_size);
    lemma_fundamental_div_mod(available, per);
    assert(fitting > 0) by (nonlinear_arith)
        requires
            available == per * fitting + available % per,
            available % per < per,
            available >= per,
            per > 0,
    ;
    lemma_even(total_cycles, fitting, p.num_chunks as int);
    lemma_chunk_in(p, chunk);
    let n = p.end(chunk) - p.first(chunk);
    let c = p.cycles_per_chunk as int;
    assert(n <= c) by {
        assert((chunk + 1) * c == chunk * c + c) by (nonlinear_arith);
        if chunk == p.num_chunks - 1 {
            assert(p.num_chunks * c == (p.num_chunks - 1) * c + c) by (nonlinear_arith);
        }
    }
    assert(n * state_size * WORD_BYTES <= available) by (nonlinear_arith)
        requires
            n <= fitting,
            per == state_size * WORD_BYTES,
            per > 0,
            per * fitting <= available,
    ;
}

/// The states of a chunk before it is simulated: the one that the chunk before
/// it ended with, and the inputs of the steps behind its first.
pub open spec fn chunk_states(
    carried: Seq<u32>,
    input_states: Seq<u32>,
    size: int,
    start: int,
    end: int,
) -> Seq<u32> {
    let from = (start + 1) * size;
    let to = if (end + 1) * size <= input_states.len() {
        (end + 1) * size
    } else {
        input_states.len() as int
    };
    if from < to {
        carried + input_states.subrange(from, to)
    } else {
        carried
    }
}

/// Appends a range of words.
fn append_range(v: &mut Vec<u32>, words: &Vec<u32>, from: usize, to: usize)
    requires
        from <= to <= words@.len(),
    ensures
        final(v)@ == old(v)@ + words@.subrange(from as int, to as int),
{
    let ghost before = v@;
    let mut i: usize = from;
    while i < to
        invariant
            from <= i <= to <= words@.len(),
            v@ == before + words@.subrange(from as int, i as int),
        decreases to - i,
    {
        v.push(words[i]);
        i += 1;
        assert(words@.subrange(from as int, i as int) =~= words@.subrange(
            from as int,
            i - 1,
        ).push(words@[i - 1]));
    }
}

/// The states of a chunk before it is simulated.
pub fn chunk_input_states(
    carried: &Vec<u32>,
    input_states: &Vec<u32>,
    size: usize,
    start_cycle: usize,
    end_cycle: usize,
) -> (v: Vec<u32>)
    requires
        start_cycle <= end_cycle,
        (end_cycle + 1) * size <= usize::MAX,
        end_cycle < usize::MAX,
    ensures
        v@ == chunk_states(
            carried@,
            input_states@,
            size as int,
            start_cycle as int,
            end_cycle as int,
        ),
{
    let mut v: Vec<u32> = Vec::new();
    append_range(&mut v, carried, 0, carried.len());
    assert(v@ =~= carried@);
    proof {
        assert((start_cycle + 1) * size <= (end_cycle + 1) * size) by (nonlinear_arith)
            requires
                start_cycle <= end_cycle,
        ;
        assert(0 <= (start_cycle + 1) * size) by (nonlinear_arith);
    }
    let from: usize = (start_cycle + 1) * size;
    let end: usize = (end_cycle + 1) * size;
    let to: usize = if end <= input_states.len() {
        end
    } else {
        input_states.len()
    };
    if from < to {
        append_range(&mut v, input_states, from, to);
    }
    v
}

/// The offsets and times of the steps of a chunk.
pub fn chunk_offsets(
    offsets_timestamps: &Vec<(usize, u64)>,
    start_cycle: usize,
    end_cycle: usize,
) -> (v: Vec<(usize, u64)>)
    requires
        start_cycle <= end_cycle <= offsets_timestamps@.len(),
    ensures
        v@ == offsets_timestamps@.subrange(start_cycle as int, end_cycle as int),
{
    let mut v: Vec<(usize, u64)> = Vec::new();
    let mut i: usize = start_cycle;
    while i < end_cycle
        invariant
            start_cycle <= i <= end_cycle <= offsets_timestamps@.len(),
            v@ == offsets_timestamps@.subrange(start_cycle as int, i as int),
        decreases end_cycle - i,
    {
        v.push(offsets_timestamps[i]);
        i += 1;
        assert(offsets_timestamps@.subrange(start_cycle as int, i as int)
            =~= offsets_timestamps@.subrange(start_cycle as int, i - 1).push(
            offsets_timestamps@[i - 1],
        ));
    }
    v
}

/// The state that a chunk of `chunk_size` steps ends with.
pub fn final_state(states: &Vec<u32>, chunk_size: usize, size: usize) -> (v: Vec<u32>)
    requires
        (chunk_size + 1) * size <= states@.len(),
    ensures
        v@ == states@.subrange(chunk_size * size, (chunk_size + 1) * size),
{
    proof {
        assert((chunk_size + 1) * size == chunk_size * size + size) by (nonlinear_arith);
        assert(0 <= chunk_size * size) by (nonlinear_arith);
    }
    assert(states@.len() == states.len());
    let from: usize = chunk_size * size;
    let mut v: Vec<u32> = Vec::new();
    append_range(&mut v, states, from, from + size);
    v
}

/// Where every step has one state of `size` words and one more state follows,
/// a chunk holds one state more than it has steps.
pub proof fn chunk_has_a_state_per_step(
    carried: Seq<u32>,
    input_states: Seq<u32>,
    size: int,
    start: int,
    end: int,
    cycles: int,
)
    requires
        size >= 0,
        0 <= start <= end <= cycles,
        carried.len() == size,
        input_states.len() == (cycles + 1) * size,
    ensures
        chunk_states(carried, input_states, size, start, end).len() == (end - start + 1) * size,
{
    assert((end + 1) * size <= (cycles + 1) * size) by (nonlinear_arith)
        requires
            end <= cycles,
            size >= 0,
    ;
    assert((start + 1) * size <= (end + 1) * size) by (nonlinear_arith)
        requires
            start <= end,
            size >= 0,
    ;
    assert((end - start + 1) * size == (end + 1) * size - (start + 1) * size + size)
        by (nonlinear_arith);
    assert(0 <= (start + 1) * size) by (nonlinear_arith)
        requires
            0 <= start,
            size >= 0,
    ;
}

/// A signal lies in a state of `size` words, or is a constant.
pub open spec fn signal_in(s: OutputSignal, size: int) -> bool {
    if s.pos == CONSTANT {
        s.aigpin <= 1
    } else if s.pos >= INPUT_MARK {
        s.pos - INPUT_MARK < size * 32
    } else {
        s.pos < size * 32
    }
}

/// The results of a chunk can be dumped: where the offset of every step is the
/// end of its state, the signals can be read at every step of the chunk.
pub proof fn chunk_can_be_dumped(
    results: Seq<u32>,
    offsets: Seq<(usize, u64)>,
    signals: Seq<OutputSignal>,
    size: int,
    start: int,
    end: int,
)
    requires
        size >= 0,
        0 <= start <= end <= offsets.len(),
        results.len() == (end - start + 1) * size,
        forall|k: int| 0 <= k < offsets.len() ==> (#[trigger] offsets[k]).0 == (k + 1) * size,
        forall|i: int| 0 <= i < signals.len() ==> signal_in(#[trigger] signals[i], size),
    ensures
        (Dump {
            states: bits(results),
            steps: chunk_steps(offsets.subrange(start, end), start, size),
            signals,
            size,
        }).wf(),
        forall|k: int|
            0 <= k < end - start ==> start * size <= (#[trigger] offsets.subrange(start, end)[k]).0,
{
    let part = offsets.subrange(start, end);
    let steps = chunk_steps(part, start, size);
    assert forall|k: int| 0 <= k < end - start implies {
        &&& (#[trigger] steps[k]).0 == (k + 1) * size
        &&& size <= steps[k].0
        &&& steps[k].0 + size <= results.len()
        &&& start * size <= part[k].0
    } by {
        assert(part[k].0 == (start + k + 1) * size);
        assert((start + k + 1) * size == start * size + (k + 1) * size) by (nonlinear_arith);
        assert(size <= (k + 1) * size) by (nonlinear_arith)
            requires
                0 <= k,
                size >= 0,
        ;
        assert((k + 1) * size + size <= (end - start + 1) * size) by (nonlinear_arith)
            requires
                k + 1 <= end - start,
                size >= 0,
        ;
    }
    let d = Dump { states: bits(results), steps, signals, size };
    assert forall|k: int, i: int|
        0 <= k < steps.len() && d.timed(k) && 0 <= i < signals.len() implies readable(
        d.states,
        #[trigger] signals[i],
        (#[trigger] steps[k]).0,
        size,
    ) by {
        assert(signal_in(signals[i], size));
    }
    assert forall|k: int| 0 <= k < end - start implies start * size <= (#[trigger] part[k]).0 by {
        assert(steps[k].0 == part[k].0 - start * size);
    }
}

} // verus!
