use gem::aig::{DriverType, AIG};
use gem::chunks::{
    chunk_input_states, chunk_offsets, final_state, memory_usage, ChunkPlan, MemoryUsage,
};
use gem::dump::{write_vcd_chunk, Change, OutputSignal, CONSTANT, INPUT_MARK};
use gem::signals::{input_layout, output_port, register_signal, CellPin, OutputPort};
use gem::staging::DFF;
use gem::trace::{ClockFlags, InputPin, InputTrace};
use gem::words::{clear_bit, flip_bit, get_bit, set_bit};
use std::collections::HashMap;

#[test]
fn bits_are_packed_into_words() {
    let mut words = vec![0u32, 0];
    set_bit(&mut words, 33);
    set_bit(&mut words, 31);
    assert_eq!(words, vec![0x8000_0000, 2]);
    assert!(get_bit(&words, 31) && !get_bit(&words, 32));
    flip_bit(&mut words, 0);
    flip_bit(&mut words, 31);
    assert_eq!(words, vec![1, 2]);
    clear_bit(&mut words, 33);
    clear_bit(&mut words, 34);
    assert_eq!(words, vec![1, 0]);
}

const CLOCK: InputPin = InputPin { pos: 0, flags: ClockFlags { pe: Some(2), ne: Some(3) } };
const DATA: InputPin = InputPin { pos: 1, flags: ClockFlags { pe: None, ne: None } };

fn trace(max_cycles: Option<usize>) -> InputTrace {
    InputTrace::new(1, vec![ClockFlags { pe: Some(2), ne: Some(3) }], max_cycles)
}

#[test]
fn a_step_sees_the_inputs_before_its_edge() {
    let mut t = trace(None);
    assert!(!t.timestamp(0));
    t.value(DATA, true);
    t.value(CLOCK, true);
    // the edge is flagged, the values wait.
    assert_eq!(t.state, vec![0b0100]);
    assert!(!t.timestamp(5));
    assert_eq!(t.state, vec![0b0011]);
    assert!(!t.timestamp(5));
    t.value(CLOCK, false);
    assert_eq!(t.state, vec![0b1011]);
    assert!(!t.timestamp(10));
    assert_eq!(t.state, vec![0b0010]);
    t.value(DATA, false);
    assert!(!t.timestamp(15));
    assert_eq!(t.state, vec![0b0000]);
    let (states, offsets) = t.finish();
    assert_eq!(states, vec![0b0100, 0b1011, 0b0000]);
    assert_eq!(offsets, vec![(1, u64::MAX), (2, 0)]);
}

#[test]
fn offsets_and_times_follow_the_steps() {
    let mut t = InputTrace::new(2, vec![ClockFlags { pe: Some(40), ne: None }], None);
    let clock = InputPin { pos: 32, flags: ClockFlags { pe: Some(40), ne: None } };
    let mut up = false;
    for time in 1..8u64 {
        assert!(!t.timestamp(time * 10));
        up = !up;
        t.value(clock, up);
    }
    let (states, offsets) = t.finish();
    // rising edges at 10, 30, 50 and 70; the last is not recorded.
    assert_eq!(offsets, vec![(2, u64::MAX), (4, 0), (6, 10), (8, 30)]);
    assert_eq!(states.len(), 10);
    assert!(states[0..2] == [0, 0] && states[2..4] == [0, 1 << 8]);
}

#[test]
fn flags_are_down_without_an_edge() {
    let mut t = trace(None);
    t.value(CLOCK, true);
    assert!(!t.timestamp(1));
    assert!(!t.active);
    assert_eq!(t.state[0] & 0b1100, 0);
    t.value(DATA, true);
    assert!(!t.active);
    assert!(!t.timestamp(2));
    assert_eq!(t.offsets_timestamps.len(), 1);
}

#[test]
fn a_value_that_is_given_back_still_flips() {
    let mut t = trace(None);
    t.value(DATA, true);
    t.value(DATA, false);
    assert!(!t.timestamp(1));
    assert_eq!(t.state, vec![0b0010]);
}

#[test]
fn reading_ends_at_the_wanted_steps() {
    let mut t = trace(Some(2));
    assert!(!t.timestamp(1));
    t.value(CLOCK, true);
    assert!(t.timestamp(2));
    let (states, offsets) = t.finish();
    assert_eq!(offsets, vec![(1, u64::MAX), (2, 0)]);
    // the state behind the last step: flags are down, the clock still waits.
    assert_eq!(states, vec![0, 0b0100, 0]);
    let mut none = trace(Some(0));
    assert!(none.timestamp(3));
}

fn signal(aigpin: usize, pos: u32) -> OutputSignal {
    OutputSignal { aigpin, pos }
}

#[test]
fn changes_are_written_once() {
    let signals = vec![
        signal(8, 0),
        signal(10, 33),
        signal(1, CONSTANT),
        signal(0, CONSTANT),
        signal(3, 1 | INPUT_MARK),
    ];
    // a state before the chunk and three steps, of two words each.
    let states = vec![0b10, 0, 0b01, 0b10, 0b11, 0b10, 0b11, 0];
    let offsets = vec![(2, u64::MAX), (4, 100), (6, 200)];
    let written = write_vcd_chunk(&states, &offsets, &signals, 2, 0);
    assert_eq!(written.len(), 2);
    let change = |signal, value| Change { signal, value };
    assert_eq!(written[0].timestamp, 100);
    assert_eq!(
        written[0].changes,
        vec![
            change(0, true),
            change(1, true),
            change(2, true),
            change(3, false),
            change(4, false),
        ]
    );
    assert_eq!(written[1].timestamp, 200);
    assert_eq!(written[1].changes, vec![change(1, false), change(4, true)]);
    let mut shown = vec![None; signals.len()];
    for step in &written {
        for c in &step.changes {
            assert!(shown[c.signal] != Some(c.value));
            shown[c.signal] = Some(c.value);
        }
    }
    assert_eq!(shown, vec![Some(true), Some(false), Some(true), Some(false), Some(true)]);
}

#[test]
fn offsets_count_from_the_start_of_the_simulation() {
    let states = vec![0, 1, 0];
    let written = write_vcd_chunk(&states, &vec![(8, 7), (9, 8)], &vec![signal(4, 0)], 1, 7);
    assert_eq!(written[0].changes, vec![Change { signal: 0, value: true }]);
    assert_eq!(written[1].changes, vec![Change { signal: 0, value: false }]);
}

#[test]
fn chunks_are_as_few_as_fit() {
    // states of 10 words take 40 bytes; 3 of them fit into 120.
    let p = ChunkPlan::new(10, 120, 10);
    assert_eq!((p.num_chunks, p.cycles_per_chunk), (4, 3));
    let chunks: Vec<_> = (0..4).map(|i| p.chunk(i)).collect();
    assert_eq!(chunks, vec![(0, 3), (3, 6), (6, 9), (9, 10)]);
    let tight = ChunkPlan::new(3, 39, 10);
    assert_eq!((tight.num_chunks, tight.cycles_per_chunk), (3, 1));
    let none = ChunkPlan::new(0, 0, 0);
    assert_eq!((none.num_chunks, none.cycles_per_chunk), (1, 0));
    assert_eq!(none.chunk(0), (0, 0));
    for total in 1..40 {
        for fit in 0..45 {
            let p = ChunkPlan::new(total, fit * 4, 1);
            let mut next = 0;
            for i in 0..p.num_chunks {
                let (start, end) = p.chunk(i);
                assert_eq!(start, next);
                assert!(start < end && end - start <= fit.max(1));
                next = end;
            }
            assert_eq!(next, total);
        }
    }
}

#[test]
fn memory_is_counted_in_bytes() {
    let m = memory_usage(3, 10, 5, 7, 2);
    assert_eq!(
        m,
        MemoryUsage { input_states: 120, sram_storage: 20, blocks_data: 28, blocks_start: 16 }
    );
    assert_eq!(m.total(), 184);
    assert_eq!(m.available(100), 36);
}

#[test]
fn chunks_carry_their_states_on() {
    let inputs = vec![0, 0, 11, 12, 21, 22, 31, 32, 41, 42];
    let offsets = vec![(2, u64::MAX), (4, 1), (6, 2), (8, 3)];
    let first = chunk_input_states(&vec![7, 8], &inputs, 2, 0, 2);
    assert_eq!(first, vec![7, 8, 11, 12, 21, 22]);
    assert_eq!(final_state(&first, 2, 2), vec![21, 22]);
    let last = chunk_input_states(&vec![5, 6], &inputs, 2, 2, 4);
    assert_eq!(last, vec![5, 6, 31, 32, 41, 42]);
    assert_eq!(chunk_offsets(&offsets, 2, 4), vec![(6, 2), (8, 3)]);
    assert_eq!(chunk_offsets(&offsets, 1, 1), vec![]);
    let beyond = chunk_input_states(&vec![5, 6], &inputs, 2, 4, 9);
    assert_eq!(beyond, vec![5, 6]);
}

fn ports() -> AIG {
    let drivers = vec![
        DriverType::Other,
        DriverType::InputPort(0),
        DriverType::InputClockFlag(0, 0),
        DriverType::AndGate(2, 4),
        DriverType::InputPort(1),
    ];
    AIG { num_aigpins: 4, drivers, fanouts_start: vec![0; 6], fanouts: vec![] }
}

#[test]
fn inputs_come_from_outside() {
    assert_eq!(input_layout(&ports()), vec![1, 2, 4]);
}

#[test]
fn output_ports_are_sorted_out() {
    let aig = ports();
    let mut map = HashMap::new();
    map.insert(7usize, 12u32);
    assert_eq!(output_port(&aig, &map, 3), OutputPort::PassThrough);
    assert_eq!(output_port(&aig, &map, 0), OutputPort::Signal(signal(0, CONSTANT)));
    assert_eq!(output_port(&aig, &map, 1), OutputPort::Signal(signal(1, CONSTANT)));
    assert_eq!(output_port(&aig, &map, 7), OutputPort::Signal(signal(7, 12)));
    assert_eq!(output_port(&aig, &map, 6), OutputPort::Unmapped);
}

#[test]
fn registers_are_dumped_by_their_output() {
    let pin = |port: &str, name: &str| CellPin { port: port.to_string(), name: name.to_string() };
    let pins = vec![pin("D", "cpu/pc_reg[2]:D"), pin("Q", "cpu/pc_reg[2]:Q"), pin("Q", "x:Q")];
    let mut map = HashMap::new();
    map.insert(9usize, 6u32);
    let dff = DFF { d_iv: 2, en_iv: 1, q: 9 };
    assert_eq!(
        register_signal("pc_reg[2]", &dff, &pins, &map),
        Some((signal(9, 6 | INPUT_MARK), "cpu/pc[2]".to_string()))
    );
    assert_eq!(register_signal("_5__reg", &dff, &pins, &map), None);
    assert_eq!(register_signal("pc", &DFF { d_iv: 2, en_iv: 1, q: 0 }, &pins, &map), None);
    assert_eq!(register_signal("pc", &DFF { d_iv: 2, en_iv: 1, q: 8 }, &pins, &map), None);
    assert_eq!(register_signal("pc", &dff, &pins[..1].to_vec(), &map), None);
}
