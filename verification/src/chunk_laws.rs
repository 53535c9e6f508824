//! What the chunks of a simulation hold and what is dumped of them.
use crate::chunks::{
    ceil_div, chunk_offsets, chunk_states, cycles_fitting, final_state, memory_usage, num_chunks,
    ChunkPlan, MemoryUsage,
};
use crate::dump::{
    bit_of, chunk_steps, dump_shows_every_value, shown, signals_are_read_from_their_bits, Dump,
    OutputSignal,
};
use crate::words::bits;
use vstd::arithmetic::div_mod::lemma_fundamental_div_mod;
use vstd::prelude::*;

verus! {

/// A quotient that is rounded up is the least that covers.
proof fn lemma_least(a: int, b: int)
    requires
        0 <= a,
        0 < b,
    ensures
        (ceil_div(a, b) - 1) * b < a <= ceil_div(a, b) * b,
{
    let n = a + b - 1;
    lemma_fundamental_div_mod(n, b);
    let q = n / b;
    let r = n % b;
    assert((q - 1) * b < a <= q * b) by (nonlinear_arith)
        requires
            n == b * q + r,
            0 <= r < b,
            n == a + b - 1,
            0 <= a,
            0 < b,
    ;
}

/// A simulation takes as few chunks as the memory allows.  Where `f` steps with
/// states of `size` words of four bytes fit into the bytes that are available,
/// and `f + 1` do not, the chunks are the fewest with `f` steps or less; where
/// not a single step fits, every step is a chunk of its own; and without steps
/// there is one chunk.
pub proof fn chunks_are_as_few_as_fit(cycles: int, available: int, size: int, f: int)
    requires
        0 <= cycles,
        0 <= available,
        0 < size,
        0 <= f,
        f * (4 * size) <= available < (f + 1) * (4 * size),
    ensures
        cycles == 0 ==> num_chunks(cycles, available, size) == 1,
        cycles > 0 && f == 0 ==> num_chunks(cycles, available, size) == cycles,
        cycles > 0 && f > 0 ==> (num_chunks(cycles, available, size) - 1) * f < cycles
            <= num_chunks(cycles, available, size) * f,
{
    let g = cycles_fitting(available, size);
    let per = size * 4;
    lemma_fundamental_div_mod(available, per);
    let r = available % per;
    assert(g == f) by (nonlinear_arith)
        requires
            available == per * g + r,
            0 <= r < per,
            f * (4 * size) <= available < (f + 1) * (4 * size),
            per == size * 4,
            0 < size,
    ;
    if f > 0 {
        lemma_least(cycles, f);
    }
}

/// All chunks but the last have the same number of steps, and the last has no
/// more; that number is the least with which the chunks hold all steps.
pub proof fn chunks_are_even(p: ChunkPlan, chunk: int)
    requires
        p.wf(),
        p.cycles_per_chunk == ceil_div(p.total_cycles as int, p.num_chunks as int),
        0 <= chunk < p.num_chunks,
    ensures
        (p.cycles_per_chunk - 1) * p.num_chunks < p.total_cycles <= p.cycles_per_chunk
            * p.num_chunks,
        chunk < p.num_chunks - 1 ==> p.end(chunk) - p.first(chunk) == p.cycles_per_chunk,
        chunk == p.num_chunks - 1 ==> p.end(chunk) == p.total_cycles && p.end(chunk) - p.first(
            chunk,
        ) <= p.cycles_per_chunk,
{
    let c = p.cycles_per_chunk as int;
    lemma_least(p.total_cycles as int, p.num_chunks as int);
    assert((chunk + 1) * c == chunk * c + c) by (nonlinear_arith);
    assert(p.num_chunks * c == (p.num_chunks - 1) * c + c) by (nonlinear_arith);
}

/// The states of a chunk begin with the state that the chunk before it ended
/// with; behind it, word `i` of the state that is `t` steps further on is that of
/// the inputs of step `start + t`.
pub proof fn chunk_states_are_the_inputs_of_its_steps(
    carried: Seq<u32>,
    input_states: Seq<u32>,
    size: int,
    start: int,
    end: int,
    t: int,
    i: int,
)
    requires
        0 <= start <= end,
        0 <= i < size,
        carried.len() == size,
        (end + 1) * size <= input_states.len(),
        0 <= t <= end - start,
    ensures
        t * size + i < chunk_states(carried, input_states, size, start, end).len(),
        chunk_states(carried, input_states, size, start, end)[t * size + i] == if t == 0 {
            carried[i]
        } else {
            input_states[(start + t) * size + i]
        },
{
    let s = chunk_states(carried, input_states, size, start, end);
    let from = (start + 1) * size;
    let to = (end + 1) * size;
    assert(0 <= from <= to) by (nonlinear_arith)
        requires
            from == (start + 1) * size,
            to == (end + 1) * size,
            0 <= start <= end,
            0 < size,
    ;
    if t == 0 {
        assert(t * size == 0) by (nonlinear_arith)
            requires
                t == 0,
        ;
        if from < to {
            assert(s == carried + input_states.subrange(from, to));
        }
    } else {
        assert(t * size + i - size == (start + t) * size + i - from) by (nonlinear_arith)
            requires
                from == (start + 1) * size,
        ;
        assert(from <= (start + t) * size + i < to) by (nonlinear_arith)
            requires
                from == (start + 1) * size,
                to == (end + 1) * size,
                1 <= t <= end - start,
                0 <= i < size,
        ;
        assert(s == carried + input_states.subrange(from, to));
    }
}

/// Without the words of another state, a chunk has the state that is carried over
/// and the whole states that follow.
pub proof fn chunk_states_end_with_the_chunk(
    carried: Seq<u32>,
    input_states: Seq<u32>,
    size: int,
    start: int,
    end: int,
)
    requires
        0 <= start <= end,
        0 <= size,
        carried.len() == size,
        (end + 1) * size <= input_states.len(),
    ensures
        chunk_states(carried, input_states, size, start, end).len() == (end - start + 1) * size,
{
    crate::chunks::chunk_has_a_state_per_step(
        carried,
        input_states.take((end + 1) * size),
        size,
        start,
        end,
        end,
    );
    assert((start + 1) * size <= (end + 1) * size) by (nonlinear_arith)
        requires
            start <= end,
            size >= 0,
    ;
}

/// The state that a chunk ends with is the one behind those of its steps.
pub proof fn chunks_end_with_their_last_state(
    states: Vec<u32>,
    chunk_size: usize,
    size: usize,
    v: Vec<u32>,
    i: int,
)
    requires
        call_ensures(final_state, (&states, chunk_size, size), v),
        (chunk_size + 1) * size <= states@.len(),
        0 <= i < size,
    ensures
        v@.len() == size,
        v@[i] == states@[chunk_size * size + i],
{
    assert((chunk_size + 1) * size == chunk_size * size + size) by (nonlinear_arith);
    assert(0 <= chunk_size * size) by (nonlinear_arith);
}

/// The offsets of a chunk are those of its steps.
pub proof fn chunk_offsets_are_those_of_its_steps(
    offsets: Vec<(usize, u64)>,
    start: usize,
    end: usize,
    v: Vec<(usize, u64)>,
    k: int,
)
    requires
        call_ensures(chunk_offsets, (&offsets, start, end), v),
        start <= end <= offsets@.len(),
        0 <= k < end - start,
    ensures
        v@.len() == end - start,
        v@[k] == offsets@[start + k],
{
}

/// A word takes four bytes and an index eight, and what is left of a memory for
/// states is all that the rest does not take.
pub proof fn memory_is_counted_in_bytes(
    cycles: usize,
    state_size: usize,
    sram_words: usize,
    data_words: usize,
    num_starts: usize,
    m: MemoryUsage,
)
    requires
        call_ensures(memory_usage, (cycles, state_size, sram_words, data_words, num_starts), m),
    ensures
        m.input_states == 4 * (cycles * state_size),
        m.fixed() == 4 * sram_words + 4 * data_words + 8 * num_starts,
{
}

/// What a dump shows.  At a step whose time is known and whose state ends behind
/// `at` words, counted from the start of the chunk, a register at position `p` is
/// shown with bit `p % 32` of word `p / 32` of the state before the step, and an
/// output with that of the state behind it.
pub proof fn dumps_show_the_bits_of_the_states(
    words: Seq<u32>,
    offsets: Seq<(usize, u64)>,
    signals: Seq<OutputSignal>,
    size: int,
    start: int,
    k: int,
    i: int,
    p: u32,
    at: int,
)
    requires
        0 <= size,
        0 <= start,
        0 <= k < offsets.len(),
        offsets[k].1 != u64::MAX,
        0 <= i < signals.len() <= usize::MAX,
        at == offsets[k].0 - start * size,
        size <= at,
        at + size <= words.len(),
        p < 0x7fff_ffff,
        p < 32 * size,
    ensures
        ({
            let d = Dump {
                states: bits(words),
                steps: chunk_steps(offsets, start, size),
                signals,
                size,
            };
            &&& signals[i].pos == p + 0x8000_0000 ==> shown(d.written(k + 1), i) == Some(
                bit_of(words[at - size + p as int / 32], p % 32),
            )
            &&& signals[i].pos == p ==> shown(d.written(k + 1), i) == Some(
                bit_of(words[at + p as int / 32], p % 32),
            )
            &&& signals[i].pos == u32::MAX ==> shown(d.written(k + 1), i) == Some(
                signals[i].aigpin == 1,
            )
        }),
{
    let d = Dump { states: bits(words), steps: chunk_steps(offsets, start, size), signals, size };
    assert(d.steps[k] == (at, offsets[k].1));
    dump_shows_every_value(d, k + 1, i);
    assert(d.previous(k + 1) == Some(k));
    signals_are_read_from_their_bits(words, signals[i], p, at, size);
}

/// The times of a dump are those of the steps that have one, in their order.
pub proof fn dumps_name_the_times_of_their_steps(d: Dump, n: int, k: int)
    requires
        0 <= n <= d.steps.len(),
    ensures
        d.written(n).len() <= n,
        forall|i: int|
            0 <= i < d.written(n).len() ==> (#[trigger] d.written(n)[i]).0 != u64::MAX,
        d.written(n).map_values(|w: (u64, Seq<crate::dump::Change>)| w.0) == d.steps.take(
            n,
        ).map_values(|s: (int, u64)| s.1).filter(|t: u64| t != u64::MAX),
    decreases n,
{
    let f = |w: (u64, Seq<crate::dump::Change>)| w.0;
    let g = |s: (int, u64)| s.1;
    let p = |t: u64| t != u64::MAX;
    reveal(Seq::filter);
    if n == 0 {
        assert(d.steps.take(0).map_values(g).filter(p) =~= Seq::empty());
        assert(d.written(0).map_values(f) =~= Seq::empty());
    } else {
        dumps_name_the_times_of_their_steps(d, n - 1, k);
        let s = d.steps.take(n).map_values(g);
        assert(s.drop_last() =~= d.steps.take(n - 1).map_values(g));
        assert(s.last() == d.steps[n - 1].1);
        if d.timed(n - 1) {
            assert(d.written(n).map_values(f) =~= d.written(n - 1).map_values(f).push(
                d.steps[n - 1].1,
            ));
        }
    }
}

/// The changes at a step name their signals in ascending order, each once.
pub proof fn changes_stand_in_the_order_of_the_signals(d: Dump, k: int, n: int, i: int, j: int)
    requires
        0 <= n <= d.signals.len() <= usize::MAX,
        0 <= i < j < d.changes_at(k, n).len(),
    ensures
        d.changes_at(k, n)[i].signal < d.changes_at(k, n)[j].signal < n,
    decreases n,
{
    if n > 0 {
        let s = d.changes_at(k, n - 1);
        if j < s.len() {
            changes_stand_in_the_order_of_the_signals(d, k, n - 1, i, j);
        } else {
            lemma_changes_below(d, k, n - 1, i);
        }
    }
}

/// Changes of the first signals name those.
proof fn lemma_changes_below(d: Dump, k: int, n: int, i: int)
    requires
        0 <= n <= d.signals.len() <= usize::MAX,
        0 <= i < d.changes_at(k, n).len(),
    ensures
        d.changes_at(k, n)[i].signal < n,
    decreases n,
{
    if n > 0 {
        if i < d.changes_at(k, n - 1).len() {
            lemma_changes_below(d, k, n - 1, i);
        }
    }
}

/// What a simulation takes besides its states is not left for them, and all that
/// it takes is what it takes for both.
pub proof fn memory_is_shared_between_states_and_the_rest(
    m: MemoryUsage,
    bytes: usize,
    left: usize,
    all: usize,
)
    requires
        call_ensures(MemoryUsage::available, (&m, bytes), left),
        call_ensures(MemoryUsage::total, (&m,), all),
    ensures
        left + m.sram_storage + m.blocks_data + m.blocks_start == bytes,
        all == m.input_states + m.sram_storage + m.blocks_data + m.blocks_start,
{
}

} // verus!
